//! Verified core of a small RTIC-style real-time framework: task-set
//! descriptions, resource-ceiling analysis, Stack-Resource-Policy locking and
//! generation of the application glue code.
pub mod analysis;
pub mod backend;
pub mod ceilings;
pub mod codegen;
pub mod keyed;
pub mod mutex;
pub mod priority;
pub mod resource;
pub mod syntax;
pub mod tokens;
