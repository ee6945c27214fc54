//! Planning a run around its external steps.
//!
//! The run's control flow is a fixed sequence of barriers: gather candidate
//! files, resolve them to modules, compile, read the interface artifacts,
//! partition the discovered tests, spawn workers, aggregate. The decisions
//! at each barrier live here as pure functions of what the world answered;
//! the shell around the library performs the gathering, spawning and
//! waiting. An empty discovery aborts before any compile command exists,
//! and a failed compilation aborts before any artifact is consulted.

use vstd::prelude::*;
use crate::errors::Abort;
use crate::module_name::ModuleName;
use crate::resolver::{
    all_resolve,
    batch_failure,
    dedup_names,
    possible_module_names,
    resolved_names,
};
use crate::source_roots::{CandidateTestFile, SourceRootSet};

verus! {

/// The recognized source extension of a candidate test file.
pub open spec fn source_extension() -> Seq<char> {
    ".elm"@
}

/// The directory components of a path, each followed by a separator:
/// `[a, b]` becomes `a/b/`.
pub open spec fn dirs_prefix(dirs: Seq<Seq<char>>) -> Seq<char>
    decreases dirs.len(),
{
    if dirs.len() == 0 {
        Seq::empty()
    } else {
        dirs_prefix(dirs.drop_last()) + dirs.last() + "/"@
    }
}

/// The file-system path of a candidate test file: its directories, its
/// stem, and the recognized source extension.
pub open spec fn path_view(f: (Seq<Seq<char>>, Seq<char>)) -> Seq<char> {
    dirs_prefix(f.0) + f.1 + source_extension()
}

/// Render a candidate test file back to the path handed to the compiler.
pub fn render_path(f: &CandidateTestFile) -> (r: String)
    ensures
        r@ == path_view(f.deep_view()),
{
    let mut r = String::new();
    let n = f.dirs.len();
    let mut i: usize = 0;
    while i < n
        invariant
            n == f.dirs.len(),
            i <= n,
            r@ == dirs_prefix(f.dirs_view().take(i as int)),
        decreases n - i,
    {
        r.append(f.dirs[i].as_str());
        r.append("/");
        proof {
            assert(f.dirs_view().take(i + 1).drop_last() =~= f.dirs_view().take(i as int));
            assert(f.dirs_view().take(i + 1).last() == f.dirs_view()[i as int]);
        }
        i = i + 1;
    }
    proof {
        assert(f.dirs_view().take(n as int) =~= f.dirs_view());
    }
    r.append(f.stem.as_str());
    r.append(".elm");
    r
}

/// The default directory searched for tests when the user names no paths.
pub fn default_test_files_argument() -> (r: String)
    ensures
        r@ == "tests"@,
{
    String::from_str("tests")
}

/// The candidate files of a run, from what discovery gathered: the
/// gathered set itself, or nothing where it is empty — the caller turns
/// nothing into the `NoTestsFound` abort.
pub fn gather_test_files(found: Vec<CandidateTestFile>) -> (r: Option<Vec<CandidateTestFile>>)
    ensures
        match r {
            Some(files) => found.deep_view().len() > 0 && files.deep_view()
                == found.deep_view(),
            None => found.deep_view().len() == 0,
        },
{
    if found.len() == 0 {
        None
    } else {
        Some(found)
    }
}

/// What the file system answered when the flagged compiler path was
/// resolved against it.
pub enum CanonicalPath {
    /// The path names an existing entry; `is_dir` says whether it is a
    /// directory.
    Resolved { path: String, is_dir: bool },
    /// The path names nothing.
    Unresolved,
}

/// The compiler executable of the run, from the command line's compiler
/// flag: without a flag, the compiler found on the search path under its
/// plain name; with one, the flagged path as the file system resolved it —
/// a path that resolves to a directory, or not at all, is not a usable
/// compiler. `canonical` is the file system's answer for the flagged path
/// and is not consulted when no flag was given.
pub fn elm_binary_path_from_compiler_flag(
    compiler_flag: Option<String>,
    canonical: CanonicalPath,
) -> (r: Result<String, Abort>)
    ensures
        match compiler_flag {
            Option::None => r is Ok && r->Ok_0@ == "elm"@,
            Option::Some(flag) => match canonical {
                CanonicalPath::Resolved { path, is_dir } => if is_dir {
                    r == Err::<String, Abort>(Abort::InvalidCompilerFlag(flag))
                } else {
                    r is Ok && r->Ok_0@ == path@
                },
                CanonicalPath::Unresolved => r == Err::<String, Abort>(
                    Abort::InvalidCompilerFlag(flag),
                ),
            },
        },
{
    match compiler_flag {
        Option::None => Ok(String::from_str("elm")),
        Option::Some(flag) => match canonical {
            CanonicalPath::Resolved { path, is_dir } => {
                if is_dir {
                    Err(Abort::InvalidCompilerFlag(flag))
                } else {
                    Ok(path)
                }
            },
            CanonicalPath::Unresolved => Err(Abort::InvalidCompilerFlag(flag)),
        },
    }
}

/// Whether a project needs its test dependencies initialized before a run:
/// only when its configuration declares none yet.
pub fn init_if_necessary(has_test_dependencies: bool) -> (needs_init: bool)
    ensures
        needs_init == !has_test_dependencies,
{
    !has_test_dependencies
}

/// One compiler invocation: the program and its arguments, in order.
pub struct CompileCommand {
    pub program: String,
    pub args: Vec<String>,
}

/// The arguments of the run's one compiler invocation: every discovered
/// file, then the request for interface artifacts without an executable.
pub open spec fn compile_args(files: Seq<(Seq<Seq<char>>, Seq<char>)>) -> Seq<Seq<char>> {
    Seq::new(files.len(), |i: int| path_view(files[i])) + seq![
        "--emit-interfaces"@,
        "--no-executable-output"@,
    ]
}

/// Everything settled before the compiler runs: the run's module names and
/// the exact command to invoke.
pub struct CompilePlan {
    pub modules: Vec<ModuleName>,
    pub command: CompileCommand,
}

/// Settle a run's compilation: resolve every candidate file and lay down
/// the one compiler invocation. An empty candidate set is `NoTestsFound`
/// and yields no command at all — no compiler invocation occurs for it —
/// and a file that does not resolve aborts the run with its failure.
pub fn plan_compilation(
    files: &Vec<CandidateTestFile>,
    roots: &SourceRootSet,
    compiler: String,
) -> (r: Result<CompilePlan, Abort>)
    ensures
        match r {
            Ok(plan) => {
                &&& files.deep_view().len() > 0
                &&& all_resolve(files.deep_view(), roots@)
                &&& plan.modules.deep_view() == dedup_names(
                    resolved_names(files.deep_view(), roots@),
                )
                &&& plan.command.program@ == compiler@
                &&& plan.command.args.deep_view() == compile_args(files.deep_view())
            },
            Err(e) => match e {
                Abort::NoTestsFound => files.deep_view().len() == 0,
                _ => batch_failure(files.deep_view(), roots@, e),
            },
        },
{
    if files.len() == 0 {
        proof {
            assert(files.deep_view().len() == 0);
        }
        return Err(Abort::NoTestsFound);
    }
    proof {
        assert(files.deep_view().len() == files.len());
    }
    let modules = match possible_module_names(files, roots) {
        Ok(ms) => ms,
        Err(e) => {
            return Err(e);
        },
    };
    let mut args: Vec<String> = Vec::new();
    let n = files.len();
    let mut i: usize = 0;
    while i < n
        invariant
            n == files.len(),
            i <= n,
            args.deep_view() =~= Seq::new(i as nat, |j: int| path_view(files.deep_view()[j])),
        decreases n - i,
    {
        let ghost pre = args.deep_view();
        let p = render_path(&files[i]);
        let ghost pview = p@;
        args.push(p);
        proof {
            assert(files[i as int].deep_view() == files.deep_view()[i as int]);
            assert(args.deep_view() =~= pre.push(pview));
            assert(args.deep_view() =~= Seq::new(
                (i + 1) as nat,
                |j: int| path_view(files.deep_view()[j]),
            ));
        }
        i = i + 1;
    }
    let ghost pre = args.deep_view();
    args.push(String::from_str("--emit-interfaces"));
    let ghost mid = args.deep_view();
    proof {
        assert(mid =~= pre.push("--emit-interfaces"@));
    }
    args.push(String::from_str("--no-executable-output"));
    proof {
        assert(args.deep_view() =~= mid.push("--no-executable-output"@));
        assert(args.deep_view() =~= compile_args(files.deep_view()));
    }
    Ok(CompilePlan { modules, command: CompileCommand { program: compiler, args } })
}

/// Interpret the compiler's termination. Artifacts are only trustworthy
/// after a clean build, so a compiler that could not be spawned, or exited
/// with anything but success, is fatal: nothing past this barrier — no
/// artifact read, no worker — happens on an error.
pub fn after_compilation(spawned: bool, exit_success: bool) -> (r: Result<(), Abort>)
    ensures
        !spawned ==> r == Err::<(), Abort>(Abort::SpawnFailed),
        spawned && !exit_success ==> r == Err::<(), Abort>(Abort::CompilationFailed),
        spawned && exit_success ==> r is Ok,
{
    if !spawned {
        Err(Abort::SpawnFailed)
    } else if !exit_success {
        Err(Abort::CompilationFailed)
    } else {
        Ok(())
    }
}

/// The run's process exit status: success exactly when the report records
/// every test as passed.
pub fn exit_code(report: &crate::worker::ExecutionReport) -> (c: i32)
    ensures
        c == if report.success {
            0i32
        } else {
            1i32
        },
{
    if report.success {
        0
    } else {
        1
    }
}

} // verus!
