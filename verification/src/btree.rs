//! An index that stores, for each object, one row whose key is a key
//! extracted from the object followed by the key of the object.

pub mod composite;
pub mod fixed_len;
pub mod index;
pub mod key;
pub mod query;
