pub mod text;
pub mod nix_base32;
pub mod hashing;
pub mod bloom;
pub mod sort;
pub mod character_set;
pub mod model;
pub mod roaring_bitmap;
pub mod fonts;
pub mod ranges;
pub mod render;
pub mod apply_rules;
pub mod paths;
pub mod download_cache;
pub mod bitset_list;
pub mod fallbacks;
pub mod css_text;
pub mod gfsubsets;
pub mod subset_data;
pub mod font_info;
pub mod css_rules;
pub mod data_package;
pub mod subset_plan;
pub mod adjacency_splitter;
pub mod gf_splitter;
pub mod splitter_plan;
pub mod order;
pub mod category;
pub mod rewrite_targets;
pub mod font_requests;
pub mod text_runs;
pub mod font_face_rules;
pub mod selector_filter;
