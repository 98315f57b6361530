//! A Bananagrams solver: places a hand of letter tiles on a square grid so
//! that every maximal run of two or more tiles is a dictionary word and all
//! tiles form one 4-connected mass.  Supports full rebuilds from scratch and
//! incremental extension of a previously solved board.

pub mod board;
pub mod words;
pub mod validity;
pub mod connectivity;
pub mod search;
pub mod removal;
pub mod existing;
pub mod solve;
