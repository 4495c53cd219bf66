//! Discovery and grouping of the asset files of animation models in a
//! directory tree.
//!
//! A model is known by a file whose name holds `.moc3`, `.moc` or `.atlas`.
//! A model file stands alone; an atlas is paired with its descriptor, a
//! `.skel` or `.json` file, and with the background variants that share the
//! descriptor's format. Each such unit is a file group, a list of strings.
//!
//! - [`grouping`] finds the file groups of one directory from its listing.
//! - [`walk`] walks a tree one listing at a time and files the groups of
//!   each directory under the directory's key in a [`directory_map`].
//! - [`tree`] states what a walk over a whole tree comes to, and
//!   [`snapshot`] walks a tree that was read beforehand.
//! - [`listing_order`] states when the order of a listing does not matter.
//! - [`intake`] decides what to do with a path that was handed in.
//! - [`listing`], [`paths`], [`order`], [`gather`] and [`text`] hold what
//!   these rest on.
//!
//! The library reads no file system. Its callers list directories and hand
//! over names and paths as plain strings.

pub mod directory_map;
pub mod gather;
pub mod grouping;
pub mod intake;
pub mod listing;
pub mod listing_order;
pub mod order;
pub mod paths;
pub mod snapshot;
pub mod text;
pub mod tree;
pub mod walk;
