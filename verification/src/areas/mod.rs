//! Screen areas: a window tiled by a tree of splits.
//!
//! The split tree is pure geometry. The screen owns one child per area and places it at the
//! rectangle that the tree computed; a region stack fills one area. Three things are proved
//! of them as a whole: a layout tiles the screen exactly, dragging a splitter disturbs the
//! areas on its two sides and nobody else, and an idle screen is idle.

pub mod bar_laws;
pub mod history_laws;
pub mod laws;
pub mod pointer_laws;
pub mod region;
pub mod region_laws;
pub mod screen;
pub mod shape;
pub mod share_laws;
pub mod tree;
