//! Diagnostics: a typo suggestion drawn from the registered names at
//! edit distance exactly one, and the structured "unit not found"
//! error built from it.

use vstd::prelude::*;
use crate::context::Context;
use crate::lookup::dim_member;
use crate::output::NotFoundError;

verus! {

/// `b` is `a` with one character replaced.
pub open spec fn subst1(a: Seq<char>, b: Seq<char>) -> bool {
    &&& a.len() == b.len()
    &&& exists|i: int|
        0 <= i < a.len() && a[i] != b[i] && (forall|j: int|
            0 <= j < a.len() && j != i ==> a[j] == b[j])
}

/// `b` is `a` with one character removed.
pub open spec fn del1(a: Seq<char>, b: Seq<char>) -> bool {
    &&& a.len() == b.len() + 1
    &&& exists|i: int| 0 <= i < a.len() && a.remove(i) == b
}

/// The two names are at edit distance exactly one.
pub open spec fn edit1(a: Seq<char>, b: Seq<char>) -> bool {
    subst1(a, b) || del1(a, b) || del1(b, a)
}

/// The first index below `upto` where the two names differ, or `upto`.
fn first_mismatch(a: &str, b: &str, upto: usize) -> (r: usize)
    requires
        upto <= a@.len(),
        upto <= b@.len(),
    ensures
        r <= upto,
        forall|j: int| 0 <= j < r ==> a@[j] == b@[j],
        r < upto ==> a@[r as int] != b@[r as int],
{
    let mut i: usize = 0;
    while i < upto
        invariant
            i <= upto,
            upto <= a@.len(),
            upto <= b@.len(),
            forall|j: int| 0 <= j < i ==> a@[j] == b@[j],
        decreases upto - i,
    {
        if a.get_char(i) != b.get_char(i) {
            return i;
        }
        i += 1;
    }
    i
}

/// Whether `b` is `a` with one character removed, decided exactly.
fn one_deletion(a: &str, b: &str) -> (r: bool)
    requires
        a@.len() == b@.len() + 1,
    ensures
        r == del1(a@, b@),
{
    let la = a.unicode_len();
    let lb = b.unicode_len();
    let i = first_mismatch(a, b, lb);
    if i == lb {
        proof {
            assert(a@.remove(la - 1) =~= b@);
        }
        return true;
    }
    let ghost i0 = i as int;
    proof {
        assert(a@[i0] != b@[i0]);
    }
    let mut j: usize = i;
    while j < lb
        invariant
            i <= j <= lb,
            la == a@.len(),
            lb == b@.len(),
            la == lb + 1,
            i < lb,
            i0 == i as int,
            a@[i0] != b@[i0],
            forall|x: int| 0 <= x < i ==> a@[x] == b@[x],
            forall|x: int| i <= x < j ==> a@[x + 1] == b@[x],
        decreases lb - j,
    {
        if a.get_char(j + 1) != b.get_char(j) {
            proof {
                let j0 = j as int;
                assert(a@[j0 + 1] != b@[j0]);
                assert forall|w: int| 0 <= w < a@.len() implies a@.remove(w) != b@ by {
                    if w <= i0 {
                        assert(a@.remove(w)[j0] == a@[j0 + 1]);
                    } else {
                        assert(a@.remove(w)[i0] == a@[i0]);
                    }
                }
            }
            return false;
        }
        j += 1;
    }
    proof {
        assert(a@.remove(i0) =~= b@);
    }
    true
}

/// Whether two names are at edit distance exactly one.
pub fn edit_distance_one(a: &str, b: &str) -> (r: bool)
    ensures
        r == edit1(a@, b@),
{
    let la = a.unicode_len();
    let lb = b.unicode_len();
    if la == lb {
        let i = first_mismatch(a, b, la);
        if i == la {
            proof {
                assert(a@ =~= b@);
                assert(!subst1(a@, b@));
            }
            return false;
        }
        let ghost i0 = i as int;
        let mut j: usize = i + 1;
        while j < la
            invariant
                i < j <= la,
                la == a@.len(),
                la == b@.len(),
                i < la,
                i0 == i as int,
                a@[i0] != b@[i0],
                forall|x: int| 0 <= x < i ==> a@[x] == b@[x],
                forall|x: int| i < x < j ==> a@[x] == b@[x],
            decreases la - j,
        {
            if a.get_char(j) != b.get_char(j) {
                proof {
                    let j0 = j as int;
                    assert forall|w: int|
                        !(0 <= w < a@.len() && a@[w] != b@[w] && (forall|x: int|
                            0 <= x < a@.len() && x != w ==> a@[x] == b@[x])) by {
                        if 0 <= w < a@.len() {
                            if w != i0 && w != j0 {
                            } else if w == i0 {
                                assert(a@[j0] != b@[j0]);
                            } else {
                                assert(a@[i0] != b@[i0]);
                            }
                        }
                    }
                }
                return false;
            }
            j += 1;
        }
        proof {
            assert(forall|x: int| 0 <= x < a@.len() && x != i0 ==> a@[x] == b@[x]);
        }
        true
    } else if lb < la && la - lb == 1 {
        one_deletion(a, b)
    } else if la < lb && lb - la == 1 {
        one_deletion(b, a)
    } else {
        false
    }
}

/// Whether a name is registered: a base dimension, a unit, or a
/// quantity name.
pub open spec fn is_candidate(ctx: &Context, s: Seq<char>) -> bool {
    ||| dim_member(ctx.dimensions@, s)
    ||| exists|i: int| 0 <= i < ctx.units@.len() && ctx.units@[i].0@ == s
    ||| exists|i: int| 0 <= i < ctx.quantities@.len() && ctx.quantities@[i].1@ == s
}

impl Context {
    /// A typo suggestion: some registered name at edit distance exactly
    /// one from `what`, or `None` when no registered name is that close.
    pub fn typo_dym<'a>(&'a self, what: &str) -> (r: Option<&'a str>)
        ensures
            match r {
                Some(s) => is_candidate(self, s@) && edit1(s@, what@),
                None => forall|c: Seq<char>| is_candidate(self, c) ==> !edit1(c, what@),
            },
    {
        let mut i: usize = 0;
        while i < self.dimensions.len()
            invariant
                i <= self.dimensions@.len(),
                forall|j: int| 0 <= j < i ==> !edit1(self.dimensions@[j]@, what@),
            decreases self.dimensions@.len() - i,
        {
            if edit_distance_one(self.dimensions[i].id.as_str(), what) {
                return Some(self.dimensions[i].id.as_str());
            }
            i += 1;
        }
        let mut i: usize = 0;
        while i < self.units.len()
            invariant
                i <= self.units@.len(),
                forall|j: int| 0 <= j < i ==> !edit1(self.units@[j].0@, what@),
            decreases self.units@.len() - i,
        {
            if edit_distance_one(self.units[i].0.as_str(), what) {
                return Some(self.units[i].0.as_str());
            }
            i += 1;
        }
        let mut i: usize = 0;
        while i < self.quantities.len()
            invariant
                i <= self.quantities@.len(),
                forall|j: int| 0 <= j < i ==> !edit1(self.quantities@[j].1@, what@),
            decreases self.quantities@.len() - i,
        {
            if edit_distance_one(self.quantities[i].1.as_str(), what) {
                return Some(self.quantities[i].1.as_str());
            }
            i += 1;
        }
        proof {
            assert forall|c: Seq<char>| is_candidate(self, c) implies !edit1(c, what@) by {
                if dim_member(self.dimensions@, c) {
                    let x = choose|x: int|
                        0 <= x < self.dimensions@.len() && self.dimensions@[x]@ == c;
                    assert(!edit1(self.dimensions@[x]@, what@));
                } else if exists|x: int| 0 <= x < self.units@.len() && self.units@[x].0@ == c {
                    let x = choose|x: int| 0 <= x < self.units@.len() && self.units@[x].0@ == c;
                    assert(!edit1(self.units@[x].0@, what@));
                } else {
                    let x = choose|x: int|
                        0 <= x < self.quantities@.len() && self.quantities@[x].1@ == c;
                    assert(!edit1(self.quantities@[x].1@, what@));
                }
            }
        }
        None
    }

    /// Wraps a failed name with an optional suggestion into a
    /// structured error.
    pub fn unknown_unit_err(&self, name: &str) -> (r: NotFoundError)
        ensures
            r.got@ == name@,
            match r.suggestion {
                Some(s) => is_candidate(self, s@) && edit1(s@, name@),
                None => forall|c: Seq<char>| is_candidate(self, c) ==> !edit1(c, name@),
            },
    {
        let suggestion = match self.typo_dym(name) {
            Some(s) => Some(s.to_owned()),
            None => None,
        };
        NotFoundError { got: name.to_owned(), suggestion }
    }
}

} // verus!
