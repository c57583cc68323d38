//! Name resolution: `lookup` resolves a unit, quantity or reserved
//! name to a value.  Resolution is tiered (previous result, then
//! temporaries, dimensions, units, quantity names), then a prefix pass
//! in registration order, and only after that a plural fallback that
//! strips a trailing `s` and retries everything.

use vstd::prelude::*;
use crate::context::Context;
use crate::dimension::{BaseUnit, Dimensionality};
use crate::number::{model_mul, model_mul_fits, NumModel, Number};
use crate::rational::Numeric;
use crate::text::{str_eq, str_after, str_take, str_ends_with, str_starts_with};

verus! {

/// The model of the previous result, if one is stored.
pub open spec fn prev_model(ctx: &Context) -> Option<NumModel> {
    match ctx.previous_result {
        Some(n) => Some(n.model()),
        None => None,
    }
}

/// The first table entry for a name, read as a model.
pub open spec fn assoc_num_model(s: Seq<(String, Number)>, k: Seq<char>) -> Option<NumModel>
    decreases s.len(),
{
    if s.len() == 0 {
        None
    } else if s.first().0@ == k {
        Some(s.first().1.model())
    } else {
        assoc_num_model(s.drop_first(), k)
    }
}

/// Whether a base dimension of this name is declared.
pub open spec fn dim_member(s: Seq<BaseUnit>, k: Seq<char>) -> bool {
    exists|i: int| 0 <= i < s.len() && s[i]@ == k
}

/// The dimensionality of the first quantity registered under a name.
pub open spec fn quantity_value(s: Seq<(Dimensionality, String)>, k: Seq<char>) -> Option<
    Map<Seq<char>, int>,
>
    decreases s.len(),
{
    if s.len() == 0 {
        None
    } else if s.first().1@ == k {
        Some(s.first().0.to_map())
    } else {
        quantity_value(s.drop_first(), k)
    }
}

/// Whether a name is reserved for the previous result.
pub open spec fn is_reserved(name: Seq<char>) -> bool {
    name == "ans"@ || name == "ANS"@ || name == "_"@
}

/// The tiered direct resolution: previous result, temporaries,
/// dimensions, units, quantity names; first hit wins.
pub open spec fn inner_spec(ctx: &Context, name: Seq<char>) -> Option<NumModel> {
    if is_reserved(name) {
        prev_model(ctx)
    } else if assoc_num_model(ctx.temporaries@, name) is Some {
        assoc_num_model(ctx.temporaries@, name)
    } else if dim_member(ctx.dimensions@, name) {
        Some(NumModel { num: 1, den: 1, unit: Map::<Seq<char>, int>::empty().insert(name, 1) })
    } else if assoc_num_model(ctx.units@, name) is Some {
        assoc_num_model(ctx.units@, name)
    } else {
        match quantity_value(ctx.quantities@, name) {
            Some(m) => Some(NumModel { num: 1, den: 1, unit: m }),
            None => None,
        }
    }
}

/// The prefix pass from index `i` on: the first prefix in registration
/// order that starts the name and whose remainder resolves directly
/// wins, and the remainder's value is scaled by its multiplier.
pub open spec fn prefix_spec(ctx: &Context, name: Seq<char>, i: int) -> Option<NumModel>
    decreases ctx.prefixes@.len() - i,
{
    if i < 0 || i >= ctx.prefixes@.len() {
        None
    } else {
        let p = ctx.prefixes@[i].0@;
        let v = ctx.prefixes@[i].1;
        if p.is_prefix_of(name) && inner_spec(ctx, name.skip(p.len() as int)) is Some {
            Some(model_mul(inner_spec(ctx, name.skip(p.len() as int))->0, v.model()))
        } else {
            prefix_spec(ctx, name, i + 1)
        }
    }
}

/// Whether the multiplication done by the prefix pass from index `i`
/// on stays within the representation.
pub open spec fn prefix_fits(ctx: &Context, name: Seq<char>, i: int) -> bool
    decreases ctx.prefixes@.len() - i,
{
    if i < 0 || i >= ctx.prefixes@.len() {
        true
    } else {
        let p = ctx.prefixes@[i].0@;
        let v = ctx.prefixes@[i].1;
        if p.is_prefix_of(name) && inner_spec(ctx, name.skip(p.len() as int)) is Some {
            model_mul_fits(inner_spec(ctx, name.skip(p.len() as int))->0, v.model())
        } else {
            prefix_fits(ctx, name, i + 1)
        }
    }
}

/// Direct tiers, then the prefix pass.
pub open spec fn outer_spec(ctx: &Context, name: Seq<char>) -> Option<NumModel> {
    if inner_spec(ctx, name) is Some {
        inner_spec(ctx, name)
    } else {
        prefix_spec(ctx, name, 0)
    }
}

/// Whether the resolution of `name` through `outer_spec` fits.
pub open spec fn outer_fits(ctx: &Context, name: Seq<char>) -> bool {
    if inner_spec(ctx, name) is Some {
        true
    } else {
        prefix_fits(ctx, name, 0)
    }
}

/// The whole resolution: the full pass on the name, and if that fails
/// and the name ends in `s`, the full pass on the shortened name.
pub open spec fn lookup_spec(ctx: &Context, name: Seq<char>) -> Option<NumModel> {
    if outer_spec(ctx, name) is Some {
        outer_spec(ctx, name)
    } else if name.len() > 0 && name.last() == 's' {
        outer_spec(ctx, name.drop_last())
    } else {
        None
    }
}

/// Whether the whole resolution of `name` fits the representation.
pub open spec fn lookup_fits(ctx: &Context, name: Seq<char>) -> bool {
    if outer_spec(ctx, name) is Some {
        outer_fits(ctx, name)
    } else if name.len() > 0 && name.last() == 's' {
        outer_fits(ctx, name.drop_last())
    } else {
        true
    }
}

/// The first entry of a name-to-number table for `name`.
fn find_number(v: &Vec<(String, Number)>, name: &str) -> (r: Option<usize>)
    ensures
        match r {
            Some(i) => {
                &&& i < v@.len()
                &&& v@[i as int].0@ == name@
                &&& assoc_num_model(v@, name@) == Some(v@[i as int].1.model())
            },
            None => assoc_num_model(v@, name@) is None,
        },
{
    proof {
        assert(v@.skip(0) =~= v@);
    }
    let mut i: usize = 0;
    while i < v.len()
        invariant
            i <= v@.len(),
            assoc_num_model(v@, name@) == assoc_num_model(v@.skip(i as int), name@),
        decreases v@.len() - i,
    {
        let ghost s = v@.skip(i as int);
        proof {
            assert(s.first() == v@[i as int]);
            assert(s.drop_first() =~= v@.skip(i as int + 1));
        }
        if str_eq(v[i].0.as_str(), name) {
            return Some(i);
        }
        i += 1;
    }
    proof {
        assert(v@.skip(i as int) =~= Seq::<(String, Number)>::empty());
    }
    None
}

/// The index of a declared base dimension, if any.
pub(crate) fn find_dimension(v: &Vec<BaseUnit>, name: &str) -> (r: Option<usize>)
    ensures
        match r {
            Some(i) => i < v@.len() && v@[i as int]@ == name@ && dim_member(v@, name@),
            None => !dim_member(v@, name@),
        },
{
    let mut i: usize = 0;
    while i < v.len()
        invariant
            i <= v@.len(),
            forall|j: int| 0 <= j < i ==> v@[j]@ != name@,
        decreases v@.len() - i,
    {
        if str_eq(v[i].id.as_str(), name) {
            return Some(i);
        }
        i += 1;
    }
    None
}

/// The index of the first quantity registered under `name`, if any.
fn find_quantity(v: &Vec<(Dimensionality, String)>, name: &str) -> (r: Option<usize>)
    ensures
        match r {
            Some(i) => {
                &&& i < v@.len()
                &&& v@[i as int].1@ == name@
                &&& quantity_value(v@, name@) == Some(v@[i as int].0.to_map())
            },
            None => quantity_value(v@, name@) is None,
        },
{
    proof {
        assert(v@.skip(0) =~= v@);
    }
    let mut i: usize = 0;
    while i < v.len()
        invariant
            i <= v@.len(),
            quantity_value(v@, name@) == quantity_value(v@.skip(i as int), name@),
        decreases v@.len() - i,
    {
        let ghost s = v@.skip(i as int);
        proof {
            assert(s.first() == v@[i as int]);
            assert(s.drop_first() =~= v@.skip(i as int + 1));
        }
        if str_eq(v[i].1.as_str(), name) {
            return Some(i);
        }
        i += 1;
    }
    proof {
        assert(v@.skip(i as int) =~= Seq::<(Dimensionality, String)>::empty());
    }
    None
}

impl Context {
    /// The tiered direct resolution.
    fn lookup_inner(&self, name: &str) -> (r: Option<Number>)
        requires
            self.wf(),
        ensures
            match r {
                Some(n) => n.wf() && inner_spec(self, name@) == Some(n.model()),
                None => inner_spec(self, name@) is None,
            },
    {
        if str_eq(name, "ans") || str_eq(name, "ANS") || str_eq(name, "_") {
            return match &self.previous_result {
                Some(n) => Some(n.clone()),
                None => None,
            };
        }
        if let Some(i) = find_number(&self.temporaries, name) {
            return Some(self.temporaries[i].1.clone());
        }
        if let Some(i) = find_dimension(&self.dimensions, name) {
            let r = Number::one_unit(self.dimensions[i].clone());
            proof {
                assert(Map::<Seq<char>, int>::empty().insert(self.dimensions@[i as int]@, 1)
                    =~= Map::<Seq<char>, int>::empty().insert(name@, 1));
            }
            return Some(r);
        }
        if let Some(i) = find_number(&self.units, name) {
            return Some(self.units[i].1.clone());
        }
        if let Some(i) = find_quantity(&self.quantities, name) {
            return Some(Number { value: Numeric::one(), unit: self.quantities[i].0.clone() });
        }
        None
    }

    /// Direct tiers, then the prefix pass; `Some(None)` marks a hit
    /// whose scaled value does not fit the representation.
    fn lookup_outer(&self, name: &str) -> (r: Option<Option<Number>>)
        requires
            self.wf(),
        ensures
            match outer_spec(self, name@) {
                None => r is None,
                Some(m) => {
                    &&& r is Some
                    &&& if outer_fits(self, name@) {
                        r->0 is Some && r->0->0.wf() && r->0->0.model() == m
                    } else {
                        r->0 is None
                    }
                },
            },
    {
        if let Some(v) = self.lookup_inner(name) {
            return Some(Some(v));
        }
        let l = name.unicode_len();
        let mut i: usize = 0;
        while i < self.prefixes.len()
            invariant
                self.wf(),
                l == name@.len(),
                i <= self.prefixes@.len(),
                inner_spec(self, name@) is None,
                prefix_spec(self, name@, 0) == prefix_spec(self, name@, i as int),
                prefix_fits(self, name@, 0) == prefix_fits(self, name@, i as int),
            decreases self.prefixes@.len() - i,
        {
            let pre = &self.prefixes[i].0;
            if str_starts_with(name, pre.as_str()) {
                let pl = pre.unicode_len();
                let rest = str_after(name, pl);
                proof {
                    assert(rest@ =~= name@.skip(pre@.len() as int));
                }
                if let Some(v) = self.lookup_inner(rest) {
                    match v.checked_mul(&self.prefixes[i].1) {
                        Some(prod) => {
                            return Some(Some(prod));
                        },
                        None => {
                            return Some(None);
                        },
                    }
                }
            }
            i += 1;
        }
        None
    }

    /// Given a unit name, returns its value if it exists.  Supports
    /// prefixes, plurals, bare dimensions, and quantity names; returns
    /// `None` also when the scaled value cannot be represented.
    pub fn lookup(&self, name: &str) -> (r: Option<Number>)
        requires
            self.wf(),
        ensures
            match lookup_spec(self, name@) {
                None => r is None,
                Some(m) => {
                    if lookup_fits(self, name@) {
                        r is Some && r->0.wf() && r->0.model() == m
                    } else {
                        r is None
                    }
                },
            },
    {
        match self.lookup_outer(name) {
            Some(x) => x,
            None => {
                let l = name.unicode_len();
                if str_ends_with(name, 's') {
                    let stripped = str_take(name, l - 1);
                    proof {
                        assert(stripped@ =~= name@.drop_last());
                    }
                    match self.lookup_outer(stripped) {
                        Some(x) => x,
                        None => None,
                    }
                } else {
                    None
                }
            },
        }
    }
}

} // verus!
