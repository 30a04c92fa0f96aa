pub mod battery;
pub mod decimal;
pub mod dial;
pub mod ids;
pub mod text;
