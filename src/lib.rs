//! Document tree and selector matching for a small rendering engine.
pub mod css;
pub mod dom;
pub mod style;
