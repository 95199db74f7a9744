//! Product-image collections of SKUs: the per-SKU image list with its cover
//! pointer, a keyed store of such collections, and the service operations on it.

pub mod image;
pub mod prelude;
pub mod service;
pub mod store;
