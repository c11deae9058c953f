//! What the editor shows and how it reacts, without the toolkit that paints it.

pub mod axis;
pub mod curve;
pub mod editor;
pub mod knob;
pub mod nodes;
pub mod scene;
pub mod theme;
