pub mod arena_tree;
pub(crate) mod text;
pub mod dom;
pub mod css_tokenizer;
pub mod html_tokenizer;
pub mod tree_construction;
pub mod insertion_mode;
pub mod tree_builder;
pub mod render_tree;
pub mod layout;
pub mod parser;
