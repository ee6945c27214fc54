//! Canonical module names: dot-separated identifiers derived from a file's
//! location under a declared source directory. A name is held as its sequence
//! of segments; `render` joins them with `.` for display and for naming the
//! module's interface artifact.

use vstd::prelude::*;

verus! {

/// A canonical module name, as the sequence of its dot-separated segments.
#[derive(Debug)]
pub struct ModuleName {
    pub segments: Vec<String>,
}

impl View for ModuleName {
    type V = Seq<Seq<char>>;

    open spec fn view(&self) -> Seq<Seq<char>> {
        self.segments.deep_view()
    }
}

impl DeepView for ModuleName {
    type V = Seq<Seq<char>>;

    open spec fn deep_view(&self) -> Seq<Seq<char>> {
        self.view()
    }
}

/// The segments joined with `.`: `[Foo, BarTest]` becomes `Foo.BarTest`.
pub open spec fn dotted(segs: Seq<Seq<char>>) -> Seq<char>
    decreases segs.len(),
{
    if segs.len() == 0 {
        Seq::empty()
    } else if segs.len() == 1 {
        segs[0]
    } else {
        dotted(segs.drop_last()) + seq!['.'] + segs.last()
    }
}

impl ModuleName {
    /// Whether this name equals `other`, segment for segment.
    pub fn is_same(&self, other: &ModuleName) -> (r: bool)
        ensures
            r == (self@ == other@),
    {
        if self.segments.len() != other.segments.len() {
            proof {
                assert(self@.len() == self.segments.len());
                assert(other@.len() == other.segments.len());
            }
            return false;
        }
        let n = self.segments.len();
        let mut i: usize = 0;
        while i < n
            invariant
                n == self.segments.len() == other.segments.len(),
                i <= n,
                forall|j: int| 0 <= j < i ==> self@[j] == other@[j],
            decreases n - i,
        {
            if !(self.segments[i] == other.segments[i]) {
                proof {
                    assert(self@[i as int] != other@[i as int]);
                }
                return false;
            }
            i = i + 1;
        }
        proof {
            assert(self@ =~= other@);
        }
        true
    }

    /// The dotted rendering of the name, such as `Foo.BarTest`.
    pub fn render(&self) -> (r: String)
        ensures
            r@ == dotted(self@),
    {
        let mut r = String::new();
        let n = self.segments.len();
        let mut i: usize = 0;
        while i < n
            invariant
                n == self.segments.len(),
                i <= n,
                r@ == dotted(self@.take(i as int)),
            decreases n - i,
        {
            if i > 0 {
                r.append(".");
                proof {
                    reveal_strlit(".");
                    assert("."@ =~= seq!['.']);
                }
            }
            r.append(self.segments[i].as_str());
            proof {
                assert(self@.take(i + 1).drop_last() =~= self@.take(i as int));
                assert(self@.take(i + 1).last() == self@[i as int]);
            }
            i = i + 1;
        }
        proof {
            assert(self@.take(n as int) =~= self@);
        }
        r
    }
}

} // verus!
