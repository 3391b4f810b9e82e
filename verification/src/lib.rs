//! Postal-code address lookup over a compact, immutable dataset.
//!
//! A dataset is an ordered index from composite keys
//! (`POSTCODE|street|city`) to offsets, and a byte region of delta-encoded
//! house-number lists that those offsets point into. It is packed into one
//! compressed blob by its producer (`pack`), loaded from that blob once
//! (`dataset`), and then only read (`lookup`).

pub mod blob;
pub mod codec;
pub mod dataset;
pub mod index;
pub mod key;
pub mod lookup;
pub mod pack;
pub mod text;

pub use codec::compress_house_numbers;
pub use codec::decompress_house_numbers;
pub use dataset::get_info;
pub use dataset::init;
pub use dataset::load_data;
pub use dataset::DataInfo;
pub use dataset::LoadError;
pub use dataset::PostcodeData;
pub use lookup::lookup;
pub use lookup::lookup_address_fst;
pub use lookup::lookup_batch;
pub use lookup::LookupResult;
pub use pack::build_dataset;
pub use pack::pack_dataset;
