pub mod limbs;
pub mod scalar;
pub mod edwards;
pub mod ed25519;
pub mod wycheproof;
