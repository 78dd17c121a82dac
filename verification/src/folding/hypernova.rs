//! HyperNova multi-folding.

pub mod accs_folding;
pub mod nimfs;
pub mod util;
