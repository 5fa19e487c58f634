pub mod args;
pub mod config;
pub mod disk;
pub mod document;
pub mod dry_run;
pub mod entry;
pub mod events;
pub mod file_tree;
pub mod forest;
pub mod key;
pub mod lang_config;
pub mod laws;
pub mod layers;
pub mod layout;
pub mod loader;
pub mod marks;
pub mod navigate;
pub mod normalize;
pub mod order;
pub mod path;
pub mod path_set;
pub mod prompt;
pub mod render;
pub mod restore;
pub mod session;
pub mod sort;
pub mod text;
pub mod value;
