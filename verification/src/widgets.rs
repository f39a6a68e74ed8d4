//! What the parts of the screen show.

pub mod state_widget;
pub mod title_widget;
