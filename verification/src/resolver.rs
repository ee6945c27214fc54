//! Resolving a candidate test file to exactly one canonical module name.
//!
//! Every declared source root that is a path-prefix of the file yields a
//! candidate name: the remaining directory components followed by the file
//! stem. Zero matching roots make the file unresolvable; matching roots that
//! derive different names make it ambiguous, which is an error and is never
//! settled by root precedence; matching roots that all derive the same name
//! (duplicate roots) resolve as one.

use vstd::prelude::*;
use crate::errors::Abort;
use crate::module_name::ModuleName;
use crate::source_roots::{CandidateTestFile, SourceRootSet, is_path_prefix, root_matches};

verus! {

/// The module name derived from a file whose directories start with a
/// matching root of `root_len` components: the directories past the root,
/// then the stem.
pub open spec fn derived_name(root_len: int, dirs: Seq<Seq<char>>, stem: Seq<char>) -> Seq<
    Seq<char>,
> {
    dirs.skip(root_len).push(stem)
}

/// The candidate module names of a file against an ordered root list: one
/// derived name per root that is a path-prefix of the file, in root order.
pub open spec fn candidates(
    dirs: Seq<Seq<char>>,
    stem: Seq<char>,
    roots: Seq<Seq<Seq<char>>>,
) -> Seq<Seq<Seq<char>>>
    decreases roots.len(),
{
    if roots.len() == 0 {
        Seq::empty()
    } else {
        let rest = candidates(dirs, stem, roots.drop_last());
        if is_path_prefix(roots.last(), dirs) {
            rest.push(derived_name(roots.last().len() as int, dirs, stem))
        } else {
            rest
        }
    }
}

/// What resolution yields for a file against a root list.
pub enum Resolution {
    /// Every matching root derives this one name.
    Resolved(Seq<Seq<char>>),
    /// No root is a prefix of the file.
    Unresolvable,
    /// Matching roots derive differing names; all candidates, in root order.
    Ambiguous(Seq<Seq<Seq<char>>>),
}

/// Resolution as a function of the file and the root list alone.
pub open spec fn resolve_spec(
    dirs: Seq<Seq<char>>,
    stem: Seq<char>,
    roots: Seq<Seq<Seq<char>>>,
) -> Resolution {
    let cs = candidates(dirs, stem, roots);
    if cs.len() == 0 {
        Resolution::Unresolvable
    } else if forall|i: int| 0 <= i < cs.len() ==> #[trigger] cs[i] == cs[0] {
        Resolution::Resolved(cs[0])
    } else {
        Resolution::Ambiguous(cs)
    }
}

/// The executable derivation of a candidate name from a matching root.
fn derive_name(root_len: usize, file: &CandidateTestFile) -> (m: ModuleName)
    requires
        root_len <= file.dirs.len(),
    ensures
        m@ == derived_name(root_len as int, file.dirs_view(), file.stem_view()),
{
    let mut segments: Vec<String> = Vec::new();
    let n = file.dirs.len();
    let mut i: usize = root_len;
    while i < n
        invariant
            root_len <= i <= n == file.dirs.len(),
            segments.deep_view() =~= file.dirs_view().subrange(root_len as int, i as int),
        decreases n - i,
    {
        let ghost pre = segments.deep_view();
        segments.push(file.dirs[i].clone());
        proof {
            assert(segments.deep_view() =~= pre.push(file.dirs_view()[i as int]));
            assert(segments.deep_view() =~= file.dirs_view().subrange(
                root_len as int,
                i + 1,
            ));
        }
        i = i + 1;
    }
    let ghost pre = segments.deep_view();
    segments.push(file.stem.clone());
    proof {
        assert(segments.deep_view() =~= pre.push(file.stem_view()));
        assert(segments.deep_view() =~= derived_name(
            root_len as int,
            file.dirs_view(),
            file.stem_view(),
        ));
    }
    ModuleName { segments }
}

/// Convert a candidate test file into exactly one module name, or fail.
///
/// The result is exactly what `resolve_spec` yields on the file's and the
/// roots' views: the unique derived name where all matching roots agree,
/// `UnresolvableModule` where no root matches, and `AmbiguousModule` with
/// every candidate where matching roots disagree.
pub fn resolve_module(file: &CandidateTestFile, roots: &SourceRootSet) -> (r: Result<
    ModuleName,
    Abort,
>)
    ensures
        match r {
            Ok(m) => resolve_spec(file.dirs_view(), file.stem_view(), roots@)
                == Resolution::Resolved(m@),
            Err(Abort::UnresolvableModule) => resolve_spec(
                file.dirs_view(),
                file.stem_view(),
                roots@,
            ) == Resolution::Unresolvable,
            Err(Abort::AmbiguousModule(ms)) => resolve_spec(
                file.dirs_view(),
                file.stem_view(),
                roots@,
            ) == Resolution::Ambiguous(ms.deep_view()),
            Err(_) => false,
        },
{
    let ghost gdirs = file.dirs_view();
    let ghost gstem = file.stem_view();
    let mut cands: Vec<ModuleName> = Vec::new();
    let n = roots.roots.len();
    let mut i: usize = 0;
    while i < n
        invariant
            n == roots.roots.len(),
            i <= n,
            gdirs == file.dirs_view(),
            gstem == file.stem_view(),
            cands.deep_view() =~= candidates(gdirs, gstem, roots@.take(i as int)),
        decreases n - i,
    {
        proof {
            assert(roots@.take(i + 1).drop_last() =~= roots@.take(i as int));
            assert(roots@.take(i + 1).last() == roots@[i as int]);
            assert(roots@[i as int] == roots.roots[i as int].deep_view());
        }
        if root_matches(&roots.roots[i], file) {
            let root_len = roots.roots[i].len();
            proof {
                assert(root_len <= gdirs.len());
                assert(gdirs.len() == file.dirs.len());
            }
            let m = derive_name(root_len, file);
            let ghost pre = cands.deep_view();
            let ghost mview = m@;
            cands.push(m);
            proof {
                assert(cands.deep_view() =~= pre.push(mview));
                assert(cands.deep_view() =~= candidates(gdirs, gstem, roots@.take(i + 1)));
            }
        } else {
            proof {
                assert(cands.deep_view() =~= candidates(gdirs, gstem, roots@.take(i + 1)));
            }
        }
        i = i + 1;
    }
    proof {
        assert(roots@.take(n as int) =~= roots@);
    }
    let ghost cs = candidates(gdirs, gstem, roots@);
    if cands.len() == 0 {
        return Err(Abort::UnresolvableModule);
    }
    // Check whether every candidate agrees with the first.
    let mut all_same = true;
    let mut j: usize = 1;
    while j < cands.len()
        invariant
            1 <= j <= cands.len(),
            cands.deep_view() == cs,
            cands.len() == cs.len(),
            all_same == (forall|k: int| 0 <= k < j ==> #[trigger] cs[k] == cs[0]),
        decreases cands.len() - j,
    {
        let same = cands[j].is_same(&cands[0]);
        proof {
            assert(cands[j as int]@ == cs[j as int]);
            assert(cands[0]@ == cs[0]);
        }
        all_same = all_same && same;
        j = j + 1;
    }
    if all_same {
        let mut cands = cands;
        let m = cands.remove(0);
        proof {
            assert(m@ == cs[0]);
        }
        Ok(m)
    } else {
        Err(Abort::AmbiguousModule(cands))
    }
}

proof fn lemma_no_match_no_candidates(
    dirs: Seq<Seq<char>>,
    stem: Seq<char>,
    roots: Seq<Seq<Seq<char>>>,
)
    requires
        forall|i: int| 0 <= i < roots.len() ==> !is_path_prefix(#[trigger] roots[i], dirs),
    ensures
        candidates(dirs, stem, roots).len() == 0,
    decreases roots.len(),
{
    if roots.len() > 0 {
        assert forall|i: int|
            0 <= i < roots.drop_last().len() implies !is_path_prefix(
            #[trigger] roots.drop_last()[i],
            dirs,
        ) by {
            assert(roots.drop_last()[i] == roots[i]);
        }
        lemma_no_match_no_candidates(dirs, stem, roots.drop_last());
        assert(roots.last() == roots[roots.len() - 1]);
    }
}

proof fn lemma_match_in_candidates(
    dirs: Seq<Seq<char>>,
    stem: Seq<char>,
    roots: Seq<Seq<Seq<char>>>,
    k: int,
)
    requires
        0 <= k < roots.len(),
        is_path_prefix(roots[k], dirs),
    ensures
        candidates(dirs, stem, roots).contains(
            derived_name(roots[k].len() as int, dirs, stem),
        ),
    decreases roots.len(),
{
    let name = derived_name(roots[k].len() as int, dirs, stem);
    let rest = candidates(dirs, stem, roots.drop_last());
    if k == roots.len() - 1 {
        assert(roots.last() == roots[k]);
        let cs = rest.push(name);
        assert(cs[rest.len() as int] == name);
        assert(cs.contains(name));
    } else {
        assert(roots.drop_last()[k] == roots[k]);
        lemma_match_in_candidates(dirs, stem, roots.drop_last(), k);
        let i = choose|i: int| 0 <= i < rest.len() && rest[i] == name;
        if is_path_prefix(roots.last(), dirs) {
            assert(rest.push(derived_name(roots.last().len() as int, dirs, stem))[i]
                == name);
        }
    }
}

/// A file reachable from exactly one declared source root always resolves,
/// to exactly the name that root derives.
pub proof fn lemma_unique_prefix_resolves(
    dirs: Seq<Seq<char>>,
    stem: Seq<char>,
    roots: Seq<Seq<Seq<char>>>,
    k: int,
)
    requires
        0 <= k < roots.len(),
        is_path_prefix(roots[k], dirs),
        forall|i: int|
            0 <= i < roots.len() && i != k ==> !is_path_prefix(#[trigger] roots[i], dirs),
    ensures
        candidates(dirs, stem, roots) =~= seq![
            derived_name(roots[k].len() as int, dirs, stem),
        ],
        resolve_spec(dirs, stem, roots) == Resolution::Resolved(
            derived_name(roots[k].len() as int, dirs, stem),
        ),
    decreases roots.len(),
{
    let name = derived_name(roots[k].len() as int, dirs, stem);
    if k == roots.len() - 1 {
        assert forall|i: int|
            0 <= i < roots.drop_last().len() implies !is_path_prefix(
            #[trigger] roots.drop_last()[i],
            dirs,
        ) by {
            assert(roots.drop_last()[i] == roots[i]);
        }
        lemma_no_match_no_candidates(dirs, stem, roots.drop_last());
        assert(roots.last() == roots[k]);
        assert(candidates(dirs, stem, roots) =~= seq![name]);
    } else {
        assert forall|i: int|
            0 <= i < roots.drop_last().len() && i != k implies !is_path_prefix(
            #[trigger] roots.drop_last()[i],
            dirs,
        ) by {
            assert(roots.drop_last()[i] == roots[i]);
        }
        assert(roots.drop_last()[k] == roots[k]);
        lemma_unique_prefix_resolves(dirs, stem, roots.drop_last(), k);
        assert(roots.last() == roots[roots.len() - 1]);
        assert(!is_path_prefix(roots.last(), dirs));
        assert(candidates(dirs, stem, roots) =~= seq![name]);
    }
    let cs = candidates(dirs, stem, roots);
    assert(cs[0] == name);
    assert(forall|i: int| 0 <= i < cs.len() ==> #[trigger] cs[i] == cs[0]);
}

/// Two matching roots that derive different names make resolution fail with
/// the full candidate list; no best guess is ever returned.
pub proof fn lemma_conflicting_prefixes_ambiguous(
    dirs: Seq<Seq<char>>,
    stem: Seq<char>,
    roots: Seq<Seq<Seq<char>>>,
    j: int,
    k: int,
)
    requires
        0 <= j < roots.len(),
        0 <= k < roots.len(),
        is_path_prefix(roots[j], dirs),
        is_path_prefix(roots[k], dirs),
        derived_name(roots[j].len() as int, dirs, stem) != derived_name(
            roots[k].len() as int,
            dirs,
            stem,
        ),
    ensures
        resolve_spec(dirs, stem, roots) == Resolution::Ambiguous(
            candidates(dirs, stem, roots),
        ),
        candidates(dirs, stem, roots).contains(
            derived_name(roots[j].len() as int, dirs, stem),
        ),
        candidates(dirs, stem, roots).contains(
            derived_name(roots[k].len() as int, dirs, stem),
        ),
{
    let a = derived_name(roots[j].len() as int, dirs, stem);
    let b = derived_name(roots[k].len() as int, dirs, stem);
    lemma_match_in_candidates(dirs, stem, roots, j);
    lemma_match_in_candidates(dirs, stem, roots, k);
    let cs = candidates(dirs, stem, roots);
    let ia = choose|i: int| 0 <= i < cs.len() && cs[i] == a;
    let ib = choose|i: int| 0 <= i < cs.len() && cs[i] == b;
    assert(cs.len() > 0);
    if forall|i: int| 0 <= i < cs.len() ==> #[trigger] cs[i] == cs[0] {
        assert(cs[ia] == cs[0]);
        assert(cs[ib] == cs[0]);
        assert(false);
    }
}

/// The resolution of one candidate file, given as its pair of views.
pub open spec fn file_resolution(
    f: (Seq<Seq<char>>, Seq<char>),
    roots: Seq<Seq<Seq<char>>>,
) -> Resolution {
    resolve_spec(f.0, f.1, roots)
}

/// Whether every file in the batch resolves to a single name.
pub open spec fn all_resolve(
    files: Seq<(Seq<Seq<char>>, Seq<char>)>,
    roots: Seq<Seq<Seq<char>>>,
) -> bool {
    forall|i: int|
        0 <= i < files.len() ==> (#[trigger] file_resolution(files[i], roots))
            is Resolved
}

/// The resolved name of each file in the batch, in batch order.
pub open spec fn resolved_names(
    files: Seq<(Seq<Seq<char>>, Seq<char>)>,
    roots: Seq<Seq<Seq<char>>>,
) -> Seq<Seq<Seq<char>>> {
    Seq::new(files.len(), |i: int| file_resolution(files[i], roots)->Resolved_0)
}

/// Names with every repeat of an earlier name removed: each name keeps its
/// first occurrence only, so iteration order stays stable.
pub open spec fn dedup_names(names: Seq<Seq<Seq<char>>>) -> Seq<Seq<Seq<char>>>
    decreases names.len(),
{
    if names.len() == 0 {
        Seq::empty()
    } else {
        let rest = dedup_names(names.drop_last());
        if rest.contains(names.last()) {
            rest
        } else {
            rest.push(names.last())
        }
    }
}

/// Whether `e` is the failure of the first unresolvable file of the batch:
/// some file fails, every file before it resolves, and the error carries
/// that file's failure.
pub open spec fn batch_failure(
    files: Seq<(Seq<Seq<char>>, Seq<char>)>,
    roots: Seq<Seq<Seq<char>>>,
    e: Abort,
) -> bool {
    exists|i: int|
        #![auto]
        0 <= i < files.len() && (forall|j: int|
            0 <= j < i ==> (#[trigger] file_resolution(files[j], roots)) is Resolved)
            && match e {
            Abort::UnresolvableModule => file_resolution(files[i], roots) is Unresolvable,
            Abort::AmbiguousModule(ms) => file_resolution(files[i], roots)
                == Resolution::Ambiguous(ms.deep_view()),
            _ => false,
        }
}

/// Resolve every candidate test file of a run to its module name, in input
/// order with duplicates removed; fail with the first file's failure where
/// one does not resolve.
pub fn possible_module_names(files: &Vec<CandidateTestFile>, roots: &SourceRootSet) -> (r:
    Result<Vec<ModuleName>, Abort>)
    ensures
        match r {
            Ok(ms) => all_resolve(files.deep_view(), roots@) && ms.deep_view()
                == dedup_names(resolved_names(files.deep_view(), roots@)),
            Err(e) => batch_failure(files.deep_view(), roots@, e),
        },
{
    let ghost fv = files.deep_view();
    let mut names: Vec<ModuleName> = Vec::new();
    let n = files.len();
    let mut idx: usize = 0;
    while idx < n
        invariant
            n == files.len(),
            idx <= n,
            fv == files.deep_view(),
            fv.len() == n,
            forall|j: int|
                0 <= j < idx ==> (#[trigger] file_resolution(fv[j], roots@)) is Resolved,
            names.deep_view() == dedup_names(resolved_names(fv.take(idx as int), roots@)),
        decreases n - idx,
    {
        proof {
            assert(fv[idx as int] == files[idx as int].deep_view());
        }
        match resolve_module(&files[idx], roots) {
            Ok(m) => {
                proof {
                    assert(file_resolution(fv[idx as int], roots@)
                        == Resolution::Resolved(m@));
                }
                let mut present = false;
                let mut t: usize = 0;
                while t < names.len()
                    invariant
                        t <= names.len(),
                        present == exists|u: int|
                            0 <= u < t && #[trigger] names.deep_view()[u] == m@,
                        names.deep_view().len() == names.len(),
                    decreases names.len() - t,
                {
                    if names[t].is_same(&m) {
                        proof {
                            assert(names.deep_view()[t as int] == m@);
                        }
                        present = true;
                    }
                    t = t + 1;
                }
                proof {
                    assert(present == names.deep_view().contains(m@));
                    let prev = resolved_names(fv.take(idx as int), roots@);
                    let cur = resolved_names(fv.take(idx + 1), roots@);
                    assert(cur.drop_last() =~= prev);
                    assert(cur.last() == m@);
                }
                if !present {
                    let ghost pre = names.deep_view();
                    let ghost mview = m@;
                    names.push(m);
                    proof {
                        assert(names.deep_view() =~= pre.push(mview));
                    }
                }
            },
            Err(e) => {
                proof {
                    assert(0 <= idx < fv.len());
                }
                return Err(e);
            },
        }
        idx = idx + 1;
    }
    proof {
        assert(fv.take(n as int) =~= fv);
    }
    Ok(names)
}

/// Resolution is a pure function of the file and the root list: resolving
/// the same pair twice yields identical results. The executable
/// `resolve_module` returns exactly `resolve_spec` of its arguments' views,
/// so two calls on equal values agree.
pub proof fn lemma_resolution_deterministic(
    dirs1: Seq<Seq<char>>,
    stem1: Seq<char>,
    roots1: Seq<Seq<Seq<char>>>,
    dirs2: Seq<Seq<char>>,
    stem2: Seq<char>,
    roots2: Seq<Seq<Seq<char>>>,
)
    requires
        dirs1 == dirs2,
        stem1 == stem2,
        roots1 == roots2,
    ensures
        resolve_spec(dirs1, stem1, roots1) == resolve_spec(dirs2, stem2, roots2),
{
}

} // verus!
