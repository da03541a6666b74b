//! An open-addressing hash table with a probe-sequence-length based
//! collision policy in the Robin Hood style, verified with Verus.
//!
//! The table is generic over the key type, the value type and the hash
//! provider.  Keys describe themselves as byte strings through [`MapKey`];
//! hash providers turn byte strings into digests through [`HashProvider`].

pub mod fx_build_hasher;
pub mod hashmap;
pub mod key;
pub mod laws;
pub mod map_entry;

pub use fx_build_hasher::FxBuildHasher;
pub use fx_build_hasher::FxHasher;
pub use fx_build_hasher::HashProvider;
pub use fx_build_hasher::IdentityBuildHasher;
pub use hashmap::FxHashMap;
pub use key::MapKey;
pub use map_entry::Entry;
pub use map_entry::MapEntry;
