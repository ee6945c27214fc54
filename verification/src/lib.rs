//! Core of a test-runner front end for a compiled, module-based source
//! language: resolves candidate test files to canonical module names against
//! the project's declared source roots, decodes compiler-emitted interface
//! artifacts to discover test suites, and plans the partitioning of the
//! discovered tests over a pool of worker processes.

pub mod errors;
pub mod interface;
pub mod module_name;
pub mod plan;
pub mod resolver;
pub mod source_roots;
pub mod worker;
