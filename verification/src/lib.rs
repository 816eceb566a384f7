pub mod codec;
pub mod laws;
pub mod woot;
