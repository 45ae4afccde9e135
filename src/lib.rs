use vstd::prelude::*;

pub mod cli;
pub mod error;
pub mod fileview;
pub mod gitutil;
pub mod pathset;
pub mod text;
pub mod treeview;
