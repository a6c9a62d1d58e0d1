pub mod bitset_list;
pub mod adjacency_array;
