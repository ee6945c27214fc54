//! Declared source roots and candidate test files.
//!
//! A candidate test file is held already split into path components: the
//! directories leading to the file and the file's stem (its name with the
//! recognized source extension removed — a candidate is only admitted with
//! that extension in the first place). A source root is likewise a sequence
//! of directory components relative to the project root.

use vstd::prelude::*;

verus! {

/// A file confirmed to exist with the recognized source extension, split
/// into the directory components leading to it and its file stem.
pub struct CandidateTestFile {
    pub dirs: Vec<String>,
    pub stem: String,
}

impl CandidateTestFile {
    /// The directory components, as sequences of characters.
    pub open spec fn dirs_view(&self) -> Seq<Seq<char>> {
        self.dirs.deep_view()
    }

    /// The file stem, as a sequence of characters.
    pub open spec fn stem_view(&self) -> Seq<char> {
        self.stem@
    }
}

impl DeepView for CandidateTestFile {
    type V = (Seq<Seq<char>>, Seq<char>);

    open spec fn deep_view(&self) -> (Seq<Seq<char>>, Seq<char>) {
        (self.dirs_view(), self.stem_view())
    }
}

/// Whether the root `root` is a path-prefix of the directory components
/// `dirs`.
pub open spec fn is_path_prefix(root: Seq<Seq<char>>, dirs: Seq<Seq<char>>) -> bool {
    root.len() <= dirs.len() && root == dirs.take(root.len() as int)
}

/// The ordered, deduplicated list of source directories declared by the
/// project configuration, each as its path components relative to the
/// project root.
pub struct SourceRootSet {
    pub roots: Vec<Vec<String>>,
}

impl View for SourceRootSet {
    type V = Seq<Seq<Seq<char>>>;

    open spec fn view(&self) -> Seq<Seq<Seq<char>>> {
        self.roots.deep_view()
    }
}

impl SourceRootSet {
    /// The declared list holds no duplicate directory.
    pub open spec fn wf(&self) -> bool {
        forall|i: int, j: int| 0 <= i < j < self@.len() ==> self@[i] != self@[j]
    }

    /// Build the root set from the configuration's declared list: the
    /// declared order is kept, every repeat of an earlier directory is
    /// dropped.
    pub fn from_declared(declared: Vec<Vec<String>>) -> (s: SourceRootSet)
        ensures
            s@ == dedup_roots(declared.deep_view()),
            s.wf(),
    {
        let ghost dv = declared.deep_view();
        let mut roots: Vec<Vec<String>> = Vec::new();
        let n = declared.len();
        let mut i: usize = 0;
        while i < n
            invariant
                n == declared.len(),
                i <= n,
                dv == declared.deep_view(),
                dv.len() == n,
                roots.deep_view() == dedup_roots(dv.take(i as int)),
            decreases n - i,
        {
            proof {
                assert(dv.take(i + 1).drop_last() =~= dv.take(i as int));
                assert(dv.take(i + 1).last() == dv[i as int]);
                assert(dv[i as int] == declared[i as int].deep_view());
            }
            let mut present = false;
            let mut t: usize = 0;
            while t < roots.len()
                invariant
                    t <= roots.len(),
                    roots.deep_view().len() == roots.len(),
                    i < declared.len(),
                    dv == declared.deep_view(),
                    present == exists|u: int|
                        0 <= u < t && #[trigger] roots.deep_view()[u] == dv[i as int],
                decreases roots.len() - t,
            {
                if segments_eq(&roots[t], &declared[i]) {
                    proof {
                        assert(roots.deep_view()[t as int] == dv[i as int]);
                    }
                    present = true;
                }
                t = t + 1;
            }
            proof {
                assert(present == roots.deep_view().contains(dv[i as int]));
            }
            if !present {
                let ghost pre = roots.deep_view();
                let dir = copy_dir(&declared[i]);
                let ghost dirv = dir.deep_view();
                roots.push(dir);
                proof {
                    assert(roots.deep_view() =~= pre.push(dirv));
                    assert(roots.deep_view() =~= dedup_roots(dv.take(i + 1)));
                }
            } else {
                proof {
                    assert(roots.deep_view() =~= dedup_roots(dv.take(i + 1)));
                }
            }
            i = i + 1;
        }
        proof {
            assert(dv.take(n as int) =~= dv);
            lemma_dedup_roots_distinct(dv);
        }
        SourceRootSet { roots }
    }
}

/// The declared directories with every repeat of an earlier one removed;
/// each directory keeps its first occurrence, so precedence order stays.
pub open spec fn dedup_roots(rs: Seq<Seq<Seq<char>>>) -> Seq<Seq<Seq<char>>>
    decreases rs.len(),
{
    if rs.len() == 0 {
        Seq::empty()
    } else {
        let rest = dedup_roots(rs.drop_last());
        if rest.contains(rs.last()) {
            rest
        } else {
            rest.push(rs.last())
        }
    }
}

proof fn lemma_dedup_roots_distinct(rs: Seq<Seq<Seq<char>>>)
    ensures
        forall|i: int, j: int|
            0 <= i < j < dedup_roots(rs).len() ==> dedup_roots(rs)[i] != dedup_roots(rs)[j],
    decreases rs.len(),
{
    if rs.len() > 0 {
        lemma_dedup_roots_distinct(rs.drop_last());
        let rest = dedup_roots(rs.drop_last());
        let whole = dedup_roots(rs);
        if !rest.contains(rs.last()) {
            assert forall|i: int, j: int| 0 <= i < j < whole.len() implies whole[i]
                != whole[j] by {
                if j < whole.len() - 1 {
                    assert(whole[i] == rest[i]);
                    assert(whole[j] == rest[j]);
                } else {
                    assert(whole[i] == rest[i]);
                    assert(whole[j] == rs.last());
                    if whole[i] == whole[j] {
                        assert(rest.contains(rs.last()));
                    }
                }
            }
        }
    }
}

/// Whether two directories are equal, component for component.
fn segments_eq(a: &Vec<String>, b: &Vec<String>) -> (r: bool)
    ensures
        r == (a.deep_view() == b.deep_view()),
{
    if a.len() != b.len() {
        proof {
            assert(a.deep_view().len() != b.deep_view().len());
        }
        return false;
    }
    let n = a.len();
    let mut i: usize = 0;
    while i < n
        invariant
            n == a.len() == b.len(),
            i <= n,
            forall|j: int| 0 <= j < i ==> a.deep_view()[j] == b.deep_view()[j],
        decreases n - i,
    {
        if !(a[i] == b[i]) {
            proof {
                assert(a.deep_view()[i as int] != b.deep_view()[i as int]);
            }
            return false;
        }
        i = i + 1;
    }
    proof {
        assert(a.deep_view() =~= b.deep_view());
    }
    true
}

/// A fresh copy of a directory's components.
fn copy_dir(dir: &Vec<String>) -> (r: Vec<String>)
    ensures
        r.deep_view() == dir.deep_view(),
{
    let mut r: Vec<String> = Vec::new();
    let n = dir.len();
    let mut i: usize = 0;
    while i < n
        invariant
            n == dir.len(),
            i <= n,
            r.deep_view() =~= dir.deep_view().take(i as int),
        decreases n - i,
    {
        let ghost pre = r.deep_view();
        r.push(dir[i].clone());
        proof {
            assert(r.deep_view() =~= pre.push(dir.deep_view()[i as int]));
            assert(r.deep_view() =~= dir.deep_view().take(i + 1));
        }
        i = i + 1;
    }
    proof {
        assert(dir.deep_view().take(n as int) =~= dir.deep_view());
    }
    r
}

/// Whether `root` is a path-prefix of the directories of `file`, decided
/// component by component.
pub fn root_matches(root: &Vec<String>, file: &CandidateTestFile) -> (r: bool)
    ensures
        r == is_path_prefix(root.deep_view(), file.dirs_view()),
{
    let n = root.len();
    if n > file.dirs.len() {
        proof {
            assert(root.deep_view().len() == n);
            assert(file.dirs_view().len() == file.dirs.len());
        }
        return false;
    }
    let mut i: usize = 0;
    while i < n
        invariant
            n == root.len() <= file.dirs.len(),
            i <= n,
            forall|j: int| 0 <= j < i ==> root.deep_view()[j] == file.dirs_view()[j],
        decreases n - i,
    {
        if !(root[i] == file.dirs[i]) {
            proof {
                assert(root.deep_view()[i as int] != file.dirs_view()[i as int]);
                assert(root.deep_view() != file.dirs_view().take(n as int));
            }
            return false;
        }
        i = i + 1;
    }
    proof {
        assert(root.deep_view() =~= file.dirs_view().take(n as int));
    }
    true
}

} // verus!
