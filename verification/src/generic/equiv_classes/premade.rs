/// Support for the standard hash map as the table.
pub mod hash_map;
