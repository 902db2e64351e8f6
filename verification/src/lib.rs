pub mod lilbitset;

pub use lilbitset::IntoIter;
pub use lilbitset::LilBitSet;
