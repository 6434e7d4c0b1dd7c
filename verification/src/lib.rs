//! Bounded, bracketed text rendering of n-dimensional array views.

pub mod planner;
pub mod sink;
pub mod view;
pub mod numbers;
pub mod element;
pub mod render;
pub mod flavors;
pub mod laws;
