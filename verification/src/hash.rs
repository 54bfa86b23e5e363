pub mod mod_hash;
pub mod static_hashmap;
