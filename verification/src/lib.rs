//! A directory-tree lister: which entries of a directory are shown, in what
//! order, how each line of the tree is drawn, and what is counted on the way.
//!
//! Reading directories and writing lines is left to the caller. The traversal
//! is a [`walker::Walker`], which asks for one directory listing at a time and
//! hands back the rows of the tree one by one.
//!
//! - [`filter`]: which names are left out.
//! - [`order`]: the order of siblings.
//! - [`config`]: the settings of a traversal and what they show of a listing.
//! - [`render`]: how a row is drawn.
//! - [`stats`]: what is counted, and the report of it.
//! - [`walker`]: the traversal, step by step.
//! - [`model`]: the rows of a tree as a definition over the listings, and the
//!   proof that the walker shows exactly these.
//! - [`snapshot`]: a traversal over listings held in memory.
//! - [`timing`]: the unit in which the time of a run is reported.
//! - [`entry`], [`text`], [`number`]: entries, strings as bytes, decimal text.

pub mod config;
pub mod entry;
pub mod filter;
pub mod model;
pub mod number;
pub mod order;
pub mod render;
pub mod snapshot;
pub mod stats;
pub mod text;
pub mod timing;
pub mod walker;
