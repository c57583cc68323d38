//! Canonicalization: `canonicalize` produces a canonical display name
//! rather than a value.  Aliases and raw definitions are walked with a
//! bounded number of steps, failing closed (returning the last-known
//! name) when the bound runs out, so alias cycles cannot recurse
//! unboundedly.  The prefix pass prefers the longest prefix spelling
//! among those with a numerically equal multiplier.

use vstd::prelude::*;
use vstd::utf8::encode_utf8;
use crate::ast::Expr;
use crate::context::Context;
use crate::lookup::dim_member;
use crate::number::{number_eq, Number};
use crate::text::{str_eq, str_after, str_take, str_ends_with, str_starts_with};

verus! {

/// The first alias entry for a name.
pub open spec fn assoc_str(s: Seq<(String, String)>, k: Seq<char>) -> Option<Seq<char>>
    decreases s.len(),
{
    if s.len() == 0 {
        None
    } else if s.first().0@ == k {
        Some(s.first().1@)
    } else {
        assoc_str(s.drop_first(), k)
    }
}

/// The first raw definition stored under a name.
pub open spec fn assoc_expr(s: Seq<(String, Expr)>, k: Seq<char>) -> Option<Expr>
    decreases s.len(),
{
    if s.len() == 0 {
        None
    } else if s.first().0@ == k {
        Some(s.first().1)
    } else {
        assoc_expr(s.drop_first(), k)
    }
}

/// The canonical prefix spelling: scanning all prefixes from index `j`,
/// a spelling that is strictly longer in bytes and carries a numerically
/// equal multiplier replaces the current pick.
pub open spec fn pick_prefix(s: Seq<(String, Number)>, j: int, cur: Seq<char>, v: Number) -> Seq<
    char,
>
    decreases s.len() - j,
{
    if j < 0 || j >= s.len() {
        cur
    } else if encode_utf8(s[j].0@).len() > encode_utf8(cur).len() && number_eq(s[j].1, v) {
        pick_prefix(s, j + 1, s[j].0@, v)
    } else {
        pick_prefix(s, j + 1, cur, v)
    }
}

/// The direct canonicalization tiers: explicit alias, base dimension,
/// then raw definition.  A bare unit reference is walked further while
/// fuel lasts, falling back to the reference's literal name; any other
/// stored definition cannot be simplified, so the name stands.
pub open spec fn canon_inner_spec(ctx: &Context, name: Seq<char>, fuel: nat) -> Option<Seq<char>>
    decreases fuel, 0int, 0int,
{
    if assoc_str(ctx.canonicalizations@, name) is Some {
        assoc_str(ctx.canonicalizations@, name)
    } else if dim_member(ctx.dimensions@, name) {
        Some(name)
    } else {
        match assoc_expr(ctx.definitions@, name) {
            Some(e) => match e {
                Expr::Unit { name: refname } => {
                    if fuel == 0 {
                        Some(refname@)
                    } else {
                        match canon_spec(ctx, refname@, (fuel - 1) as nat) {
                            Some(r) => Some(r),
                            None => Some(refname@),
                        }
                    }
                },
                Expr::Raw { text } => Some(name),
            },
            None => None,
        }
    }
}

/// The canonicalization prefix pass from index `i` on.
pub open spec fn canon_prefix_spec(ctx: &Context, name: Seq<char>, i: int, fuel: nat) -> Option<
    Seq<char>,
>
    decreases fuel, 1int, ctx.prefixes@.len() - i,
{
    if i < 0 || i >= ctx.prefixes@.len() {
        None
    } else {
        let p = ctx.prefixes@[i].0@;
        let v = ctx.prefixes@[i].1;
        if p.is_prefix_of(name) && canon_inner_spec(ctx, name.skip(p.len() as int), fuel) is Some {
            Some(
                pick_prefix(ctx.prefixes@, 0, p, v) + canon_inner_spec(
                    ctx,
                    name.skip(p.len() as int),
                    fuel,
                )->0,
            )
        } else {
            canon_prefix_spec(ctx, name, i + 1, fuel)
        }
    }
}

/// Direct tiers, then the prefix pass.
pub open spec fn canon_outer_spec(ctx: &Context, name: Seq<char>, fuel: nat) -> Option<Seq<char>>
    decreases fuel, 2int, 0int,
{
    if canon_inner_spec(ctx, name, fuel) is Some {
        canon_inner_spec(ctx, name, fuel)
    } else {
        canon_prefix_spec(ctx, name, 0, fuel)
    }
}

/// The whole canonicalization at a given walking depth: the full pass
/// on the name, then the plural fallback on the shortened name.
pub open spec fn canon_spec(ctx: &Context, name: Seq<char>, fuel: nat) -> Option<Seq<char>>
    decreases fuel, 3int, 0int,
{
    if canon_outer_spec(ctx, name, fuel) is Some {
        canon_outer_spec(ctx, name, fuel)
    } else if name.len() > 0 && name.last() == 's' {
        canon_outer_spec(ctx, name.drop_last(), fuel)
    } else {
        None
    }
}

/// The depth at which the walk of alias chains is cut off: one more
/// than the raw-definition table can name, so only a cycle is ever cut.
pub open spec fn canon_fuel(ctx: &Context) -> nat {
    if ctx.definitions@.len() < usize::MAX {
        (ctx.definitions@.len() + 1) as nat
    } else {
        ctx.definitions@.len() as nat
    }
}

/// The first alias entry for `name`.
fn find_str(v: &Vec<(String, String)>, name: &str) -> (r: Option<usize>)
    ensures
        match r {
            Some(i) => {
                &&& i < v@.len()
                &&& v@[i as int].0@ == name@
                &&& assoc_str(v@, name@) == Some(v@[i as int].1@)
            },
            None => assoc_str(v@, name@) is None,
        },
{
    proof {
        assert(v@.skip(0) =~= v@);
    }
    let mut i: usize = 0;
    while i < v.len()
        invariant
            i <= v@.len(),
            assoc_str(v@, name@) == assoc_str(v@.skip(i as int), name@),
        decreases v@.len() - i,
    {
        let ghost s = v@.skip(i as int);
        proof {
            assert(s.first() == v@[i as int]);
            assert(s.drop_first() =~= v@.skip(i as int + 1));
        }
        if str_eq(v[i].0.as_str(), name) {
            return Some(i);
        }
        i += 1;
    }
    proof {
        assert(v@.skip(i as int) =~= Seq::<(String, String)>::empty());
    }
    None
}

/// The first raw definition stored under `name`.
fn find_expr(v: &Vec<(String, Expr)>, name: &str) -> (r: Option<usize>)
    ensures
        match r {
            Some(i) => {
                &&& i < v@.len()
                &&& v@[i as int].0@ == name@
                &&& assoc_expr(v@, name@) == Some(v@[i as int].1)
            },
            None => assoc_expr(v@, name@) is None,
        },
{
    proof {
        assert(v@.skip(0) =~= v@);
    }
    let mut i: usize = 0;
    while i < v.len()
        invariant
            i <= v@.len(),
            assoc_expr(v@, name@) == assoc_expr(v@.skip(i as int), name@),
        decreases v@.len() - i,
    {
        let ghost s = v@.skip(i as int);
        proof {
            assert(s.first() == v@[i as int]);
            assert(s.drop_first() =~= v@.skip(i as int + 1));
        }
        if str_eq(v[i].0.as_str(), name) {
            return Some(i);
        }
        i += 1;
    }
    proof {
        assert(v@.skip(i as int) =~= Seq::<(String, Expr)>::empty());
    }
    None
}

impl Context {
    /// The direct canonicalization tiers at a given depth.
    fn canon_inner(&self, name: &str, fuel: usize) -> (r: Option<String>)
        requires
            self.wf(),
        ensures
            match r {
                Some(t) => canon_inner_spec(self, name@, fuel as nat) == Some(t@),
                None => canon_inner_spec(self, name@, fuel as nat) is None,
            },
        decreases fuel, 0int,
    {
        if let Some(i) = find_str(&self.canonicalizations, name) {
            return Some(self.canonicalizations[i].1.clone());
        }
        if let Some(i) = crate::lookup::find_dimension(&self.dimensions, name) {
            return Some(name.to_owned());
        }
        if let Some(i) = find_expr(&self.definitions, name) {
            match &self.definitions[i].1 {
                Expr::Unit { name: refname } => {
                    if fuel == 0 {
                        return Some(refname.clone());
                    }
                    return match self.canonicalize_fuel(refname.as_str(), fuel - 1) {
                        Some(r) => Some(r),
                        None => Some(refname.clone()),
                    };
                },
                Expr::Raw { text } => {
                    return Some(name.to_owned());
                },
            }
        }
        None
    }

    /// The full canonicalization pass at a given depth.
    fn canonicalize_fuel(&self, name: &str, fuel: usize) -> (r: Option<String>)
        requires
            self.wf(),
        ensures
            match r {
                Some(t) => canon_spec(self, name@, fuel as nat) == Some(t@),
                None => canon_spec(self, name@, fuel as nat) is None,
            },
        decreases fuel, 3int,
    {
        match self.canon_outer(name, fuel) {
            Some(t) => Some(t),
            None => {
                let l = name.unicode_len();
                if str_ends_with(name, 's') {
                    let stripped = str_take(name, l - 1);
                    proof {
                        assert(stripped@ =~= name@.drop_last());
                    }
                    self.canon_outer(stripped, fuel)
                } else {
                    None
                }
            },
        }
    }

    /// Direct tiers, then the prefix pass, at a given depth.
    fn canon_outer(&self, name: &str, fuel: usize) -> (r: Option<String>)
        requires
            self.wf(),
        ensures
            match r {
                Some(t) => canon_outer_spec(self, name@, fuel as nat) == Some(t@),
                None => canon_outer_spec(self, name@, fuel as nat) is None,
            },
        decreases fuel, 2int,
    {
        if let Some(t) = self.canon_inner(name, fuel) {
            return Some(t);
        }
        let mut i: usize = 0;
        while i < self.prefixes.len()
            invariant
                self.wf(),
                i <= self.prefixes@.len(),
                canon_inner_spec(self, name@, fuel as nat) is None,
                canon_prefix_spec(self, name@, 0, fuel as nat) == canon_prefix_spec(
                    self,
                    name@,
                    i as int,
                    fuel as nat,
                ),
            decreases self.prefixes@.len() - i,
        {
            let pre = &self.prefixes[i].0;
            if str_starts_with(name, pre.as_str()) {
                let pl = pre.unicode_len();
                let rest = str_after(name, pl);
                proof {
                    assert(rest@ =~= name@.skip(pre@.len() as int));
                }
                if let Some(t) = self.canon_inner(rest, fuel) {
                    let mut best: usize = i;
                    let ghost s = self.prefixes@;
                    let mut j: usize = 0;
                    while j < self.prefixes.len()
                        invariant
                            self.wf(),
                            s == self.prefixes@,
                            i < s.len(),
                            best < s.len(),
                            j <= s.len(),
                            pick_prefix(s, 0, s[i as int].0@, s[i as int].1) == pick_prefix(
                                s,
                                j as int,
                                s[best as int].0@,
                                s[i as int].1,
                            ),
                        decreases s.len() - j,
                    {
                        let bytes_j = self.prefixes[j].0.as_str().as_bytes().len();
                        let bytes_best = self.prefixes[best].0.as_str().as_bytes().len();
                        proof {
                            assert(bytes_j == encode_utf8(s[j as int].0@).len());
                            assert(bytes_best == encode_utf8(s[best as int].0@).len());
                        }
                        let longer = bytes_j > bytes_best;
                        if longer && self.prefixes[j].1.eq_number(&self.prefixes[i].1) {
                            best = j;
                        }
                        j += 1;
                    }
                    let mut out = String::new();
                    out.append(self.prefixes[best].0.as_str());
                    out.append(t.as_str());
                    return Some(out);
                }
            }
            i += 1;
        }
        None
    }

    /// Given a unit name, tries to return a canonical name, expanding
    /// aliases; alias chains longer than the raw-definition table are
    /// cut off (only a cycle can be that long) and fail closed to the
    /// last-known name.
    pub fn canonicalize(&self, name: &str) -> (r: Option<String>)
        requires
            self.wf(),
        ensures
            match r {
                Some(t) => canon_spec(self, name@, canon_fuel(self)) == Some(t@),
                None => canon_spec(self, name@, canon_fuel(self)) is None,
            },
    {
        let n = self.definitions.len();
        let fuel = if n < usize::MAX {
            n + 1
        } else {
            n
        };
        self.canonicalize_fuel(name, fuel)
    }
}

} // verus!
