pub mod chains;
pub mod hash_table;
pub mod key;
pub mod laws;
pub mod str_cutter;
pub mod word_count;
