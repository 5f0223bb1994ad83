pub mod container;
pub mod entry;
pub mod filesystem;
pub mod paths;
