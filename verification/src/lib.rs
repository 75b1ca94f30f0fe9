//! A library of game disc images and archives, with metadata from RAWG: the rules by which
//! files are found and named, directories admitted, requests checked, matches ranked and
//! accepted, and metadata batches driven.

pub mod batch;
pub mod chars;
pub mod cleaning;
pub mod commands;
pub mod error;
pub mod rawg;
pub mod scanner;
