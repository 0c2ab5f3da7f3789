//! Interfaces between the render targets and the resources they draw from.

pub mod render_target;
