pub mod derivation;
pub mod json;
pub mod old_style;
