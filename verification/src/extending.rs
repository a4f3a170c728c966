//! Containers of std with a few additions.

pub mod hash_map;
pub mod linked_list;
pub mod snoc_list;
