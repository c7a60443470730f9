//! A growable guillotine packer: rectangles are placed into a binary tree of
//! axis-aligned regions, splitting each chosen free region into an occupied
//! part plus right/bottom leftovers, and wrapping the tree in a new root
//! whenever the bounding box must grow.

pub mod options;
pub mod render;
pub mod spatial_tree;
