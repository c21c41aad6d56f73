//! Blender-style screen areas, and a zoomable node canvas.
//!
//! Two widgets' worth of decisions, without the widgets. [`areas`] tiles a window by a tree
//! of splits, turns drags of a splitter into ratios, and divides an area between its
//! regions. [`canvas`] pans and zooms over freely positioned nodes, decides which of them
//! deserve a widget and at which level of detail, and routes the pointer. The host owns the
//! widgets, which are known here by number, and does to its tree what it is told.
//!
//! Coordinates are binary64 numbers with arithmetic of their own, in [`number`], so that a
//! layout can be proved down to the last bit. [`geometry`] has the points, rectangles and
//! transforms made of them.

pub mod areas;
pub mod canvas;
pub mod geometry;
pub mod geometry_laws;
pub mod number;
pub mod widget;
