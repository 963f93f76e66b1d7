//! The interner: an arena handing out stable, comparable handles for
//! repeated strings, so equal content is stored once.

use vstd::prelude::*;
use crate::strutil::{seq_views, str_eq};

verus! {

/// An arena of distinct strings. A handle is an index into the arena;
/// repeated calls with equal content return equal handles, and every handle
/// stays valid for the arena's life.
pub struct Interner {
    strings: Vec<String>,
}

impl View for Interner {
    type V = Seq<Seq<char>>;

    closed spec fn view(&self) -> Seq<Seq<char>> {
        seq_views(self.strings@)
    }
}

impl Interner {
    /// Well-formed: no content is stored twice.
    pub open spec fn wf(self) -> bool {
        self@.no_duplicates()
    }

    pub fn new() -> (r: Self)
        ensures
            r.wf(),
            r@ == Seq::<Seq<char>>::empty(),
    {
        let r = Interner { strings: Vec::new() };
        proof {
            assert(r@ =~= Seq::<Seq<char>>::empty());
        }
        r
    }

    pub fn len(&self) -> (n: usize)
        ensures
            n == self@.len(),
    {
        self.strings.len()
    }

    /// Intern a string: content already present returns its existing handle
    /// and changes nothing; new content is stored and gets the next handle.
    /// Earlier handles keep their content either way.
    pub fn intern(&mut self, s: &str) -> (h: usize)
        requires
            old(self).wf(),
        ensures
            final(self).wf(),
            h < final(self)@.len(),
            final(self)@[h as int] == s@,
            forall|i: int| 0 <= i < old(self)@.len() ==> final(self)@[i] == old(self)@[i],
            old(self)@.contains(s@) ==> final(self)@ == old(self)@,
            !old(self)@.contains(s@) ==> final(self)@ == old(self)@.push(s@) && h == old(
                self,
            )@.len(),
    {
        let n = self.strings.len();
        let mut i: usize = 0;
        while i < n
            invariant
                i <= n,
                n == self@.len(),
                *self == *old(self),
                old(self).wf(),
                forall|j: int| 0 <= j < i ==> self@[j] != s@,
            decreases n - i,
        {
            if str_eq(self.strings[i].as_str(), s) {
                proof {
                    assert(self@[i as int] == s@);
                }
                return i;
            }
            i += 1;
        }
        let ghost pre = self@;
        self.strings.push(s.to_owned());
        proof {
            assert(self@ =~= pre.push(s@));
            assert forall|a: int, b: int|
                0 <= a < self@.len() && 0 <= b < self@.len() && a != b implies self@[a]
                != self@[b] by {
                if a < pre.len() && b < pre.len() {
                    assert(pre[a] != pre[b]);
                }
            }
        }
        n
    }

    /// The content a handle stands for.
    pub fn lookup(&self, h: usize) -> (r: &String)
        requires
            h < self@.len(),
        ensures
            r@ == self@[h as int],
    {
        &self.strings[h]
    }
}

/// In a well-formed arena, handles compare equal exactly when their content
/// does: the handle is as good as the string.
pub proof fn lemma_handles_agree(v: Seq<Seq<char>>, i: int, j: int)
    requires
        v.no_duplicates(),
        0 <= i < v.len(),
        0 <= j < v.len(),
    ensures
        v[i] == v[j] <==> i == j,
{
}

} // verus!
