pub mod ids;
pub mod types;
pub mod registry;
pub mod field_deps;
pub mod context;
pub mod loader;
pub mod fetch;
pub mod check;
pub mod calls;
pub mod infer;
