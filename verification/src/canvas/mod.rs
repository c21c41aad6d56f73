//! A zoomable, pannable canvas of freely positioned nodes.
//!
//! The canvas is two things, not one: a viewport that holds the view and clips, and content
//! that carries the transform and owns the nodes. A node has geometry always and a widget
//! only while it is in view; below the smallest detail level the canvas paints nodes itself
//! and nothing is materialised.

pub mod anchor_laws;
pub mod content;
pub mod detail;
pub mod diff;
pub mod gesture_laws;
pub mod invalidate;
pub mod laws;
pub mod layer;
pub mod node_laws;
pub mod pan_laws;
pub mod view_laws;
pub mod zoom_laws;
