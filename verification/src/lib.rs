//! A Japanese input engine of the SKK family that lives inside a terminal.

pub mod answers;
pub mod appending;
pub mod arriving;
pub mod asking;
pub mod azik;
pub mod characters;
pub mod choosing;
pub mod comments;
pub mod config;
pub mod context;
pub mod dates;
pub mod desktop;
pub mod dict;
pub mod display;
pub mod entries;
pub mod filled;
pub mod filling;
pub mod following;
pub mod gleaned;
pub mod guessed;
pub mod handling;
pub mod index;
pub mod input;
pub mod jisyo;
pub mod jsonc;
pub mod key;
pub mod keynames;
pub mod launch;
pub mod learning;
pub mod machine;
pub mod manners;
pub mod marks;
pub mod matching;
pub mod mentions;
pub mod migemo;
pub mod names;
pub mod num;
pub mod numerals;
pub mod order;
pub mod places;
pub mod pressing;
pub mod registered;
pub mod render;
pub mod romaji;
pub mod roundtrip;
pub mod running;
pub mod screen;
pub mod seen;
pub mod session;
pub mod setup;
pub mod sgr;
pub mod showing;
pub mod skk;
pub mod snippet;
pub mod soundness;
pub mod spelling;
pub mod spelt;
pub mod starting;
pub mod steps;
pub mod surviving;
pub mod table;
pub mod tables;
pub mod text;
pub mod typing;
pub mod undo;
pub mod waiting;
pub mod width;
pub mod writers;
