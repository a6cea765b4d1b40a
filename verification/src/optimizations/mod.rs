//! The tree optimizations.
pub mod ellipses_to_circles;
pub mod extract_common_attributes;
pub mod remove_useless_stroke_and_fill;
pub mod remove_useless_groups;
pub mod remove_rough_style;
pub mod rough_style_laws;
