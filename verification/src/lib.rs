//! A disk-resident key-value index: a B-tree whose nodes are fixed-size pages
//! of one file.
//!
//! The library holds the file as its pages and does everything but the
//! reading and writing: `page` lays a node out as a page and reads it back,
//! `btree` inserts and looks up, splitting nodes as they fill, `image` and
//! `btree` turn the whole file into bytes and back, and `connection` is the
//! textual interface in front of it. `tree`, `frame`, `members` and `grow`
//! say what a well-formed tree is and why an insertion keeps it so, `shape`
//! tells whether the pages at hand are one, and `laws` states what follows
//! for every well-formed index.

pub mod btree;
pub mod command;
pub mod connection;
pub mod error;
pub mod file;
pub mod frame;
pub mod grow;
pub mod image;
pub mod key;
pub mod laws;
pub mod members;
pub mod node;
pub mod page;
pub mod shape;
pub mod tree;
pub mod wire;
