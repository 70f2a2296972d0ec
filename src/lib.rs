pub mod codec;
pub mod machine;
pub mod score;
pub mod search;

pub use codec::{c2n, c2narray_arr26, inv_mapping_arr26, n2c};
pub use machine::Enigma;
