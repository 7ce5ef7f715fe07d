pub mod disk_fetch;
pub mod load;
pub mod model;
pub mod parse;
pub mod project;
pub mod scope;
