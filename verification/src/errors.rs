//! The run-level error taxonomy. Every error here is fatal to a run: each one
//! signals a condition (ambiguous module identity, failed build, missing
//! artifact) after which further progress would be unsound.

use vstd::prelude::*;
use crate::module_name::ModuleName;

verus! {

/// Why a run was aborted.
#[derive(Debug)]
pub enum Abort {
    /// The project configuration could not be read or was malformed.
    ConfigurationError,
    /// Discovery produced an empty set of candidate test files.
    NoTestsFound,
    /// A candidate test file is not reachable from any declared source root.
    UnresolvableModule,
    /// Two or more source roots explain a candidate test file and derive
    /// different module names; all derived candidates are reported.
    AmbiguousModule(Vec<ModuleName>),
    /// The compiler path given on the command line does not name a usable
    /// compiler executable.
    InvalidCompilerFlag(String),
    /// The external compiler ran but did not exit successfully.
    CompilationFailed,
    /// An external process (compiler or worker) could not be spawned at all.
    SpawnFailed,
    /// Compilation reported success but an expected interface artifact is
    /// absent.
    MissingInterface,
    /// An interface artifact exists but is not a well-formed encoding of the
    /// expected schema.
    MalformedInterface,
    /// A worker process exited abnormally.
    WorkerFailure,
}

} // verus!
