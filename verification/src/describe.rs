//! Dimensionality description: `describe_unit` classifies a value's
//! unit and renders it as text, flagging reciprocal units.  Tie-break
//! order: square-of-quantity, then direct quantity match, then inverse
//! quantity match, then a generic rendering of the exponent pairs.

use vstd::prelude::*;
use crate::context::Context;
use crate::dimension::{div_map, neg_map, Dimensionality, BaseUnit};
use crate::number::Number;
use crate::text::{spec_int_string, str_after};

verus! {

/// The name of the first quantity registered for a dimensionality.
pub open spec fn quantity_name(s: Seq<(Dimensionality, String)>, m: Map<Seq<char>, int>) -> Option<
    Seq<char>,
>
    decreases s.len(),
{
    if s.len() == 0 {
        None
    } else if s.first().0.to_map() == m {
        Some(s.first().1@)
    } else {
        quantity_name(s.drop_first(), m)
    }
}

/// Whether every exponent is even.
pub open spec fn all_even(s: Seq<(Seq<char>, int)>) -> bool {
    forall|i: int| 0 <= i < s.len() ==> s[i].1 % 2 == 0
}

/// A single-entry exponent map.
pub open spec fn map1(k: Seq<char>, p: int) -> Map<Seq<char>, int> {
    Map::<Seq<char>, int>::empty().insert(k, p)
}

/// The rendering of one (base, exponent) pair, preceded by a space:
/// a quantity registered for exactly this pair; else a quantity for
/// the bare base, or the base's name single-quoted, with `^exponent`
/// appended when the exponent is not one.
pub open spec fn helper_spec(ctx: &Context, dim: Seq<char>, pow: int) -> Seq<char> {
    match quantity_name(ctx.quantities@, map1(dim, pow)) {
        Some(n) => seq![' '] + n,
        None => {
            let base = match quantity_name(ctx.quantities@, map1(dim, 1)) {
                Some(n2) => seq![' '] + n2,
                None => seq![' ', '\''] + dim + seq!['\''],
            };
            if pow != 1 {
                base + seq!['^'] + spec_int_string(pow, 10)
            } else {
                base
            }
        },
    }
}

/// The rendering of one group of exponent pairs, in entry order: the
/// non-negative group, or the negative group with exponents negated.
pub open spec fn group_text(ctx: &Context, s: Seq<(Seq<char>, int)>, neg: bool) -> Seq<char>
    decreases s.len(),
{
    if s.len() == 0 {
        Seq::empty()
    } else {
        let rest = group_text(ctx, s.drop_last(), neg);
        let e = s.last();
        if neg {
            if e.1 < 0 {
                rest + helper_spec(ctx, e.0, -e.1)
            } else {
                rest
            }
        } else {
            if e.1 >= 0 {
                rest + helper_spec(ctx, e.0, e.1)
            } else {
                rest
            }
        }
    }
}

/// Whether some exponent is non-negative.
pub open spec fn has_pos(s: Seq<(Seq<char>, int)>) -> bool {
    exists|i: int| 0 <= i < s.len() && s[i].1 >= 0
}

/// Whether some exponent is negative.
pub open spec fn has_neg(s: Seq<(Seq<char>, int)>) -> bool {
    exists|i: int| 0 <= i < s.len() && s[i].1 < 0
}

/// The classification and rendering of a unit: the reciprocal flag and
/// the text.
pub open spec fn describe_spec(ctx: &Context, u: Dimensionality) -> (bool, Seq<char>) {
    let m = u.to_map();
    if all_even(u@) && quantity_name(ctx.quantities@, div_map(m, 2)) is Some {
        (false, quantity_name(ctx.quantities@, div_map(m, 2))->0 + seq!['^', '2'])
    } else if quantity_name(ctx.quantities@, m) is Some {
        (false, quantity_name(ctx.quantities@, m)->0)
    } else if quantity_name(ctx.quantities@, neg_map(m)) is Some {
        (true, quantity_name(ctx.quantities@, neg_map(m))->0)
    } else {
        let pos = group_text(ctx, u@, false);
        let frac = group_text(ctx, u@, true);
        let recip = has_neg(u@) && !has_pos(u@);
        let all: Seq<char> = if has_neg(u@) {
            if !has_pos(u@) {
                frac
            } else {
                pos + seq![' ', '/'] + frac
            }
        } else {
            pos
        };
        if all.len() == 0 {
            (recip, all)
        } else {
            (recip, all.drop_first())
        }
    }
}

/// The first quantity entry denoting the given dimensionality.
pub(crate) fn find_quantity_dim(v: &Vec<(Dimensionality, String)>, d: &Dimensionality) -> (r:
    Option<usize>)
    requires
        d.wf(),
        forall|j: int| 0 <= j < v@.len() ==> (#[trigger] v@[j]).0.wf(),
    ensures
        match r {
            Some(i) => {
                &&& i < v@.len()
                &&& v@[i as int].0.to_map() == d.to_map()
                &&& quantity_name(v@, d.to_map()) == Some(v@[i as int].1@)
            },
            None => quantity_name(v@, d.to_map()) is None,
        },
{
    proof {
        assert(v@.skip(0) =~= v@);
    }
    let mut i: usize = 0;
    while i < v.len()
        invariant
            d.wf(),
            forall|j: int| 0 <= j < v@.len() ==> (#[trigger] v@[j]).0.wf(),
            i <= v@.len(),
            quantity_name(v@, d.to_map()) == quantity_name(v@.skip(i as int), d.to_map()),
        decreases v@.len() - i,
    {
        let ghost s = v@.skip(i as int);
        proof {
            assert(s.first() == v@[i as int]);
            assert(s.drop_first() =~= v@.skip(i as int + 1));
        }
        if v[i].0.dim_eq(d) {
            return Some(i);
        }
        i += 1;
    }
    proof {
        assert(v@.skip(i as int) =~= Seq::<(Dimensionality, String)>::empty());
    }
    None
}

impl Context {
    /// Renders one (base, exponent) pair onto `out`.
    fn describe_helper(&self, dim: &BaseUnit, pow: i64, out: &mut String)
        requires
            self.wf(),
            pow != 0,
        ensures
            final(out)@ == old(out)@ + helper_spec(self, dim@, pow as int),
            final(out)@.len() > old(out)@.len(),
    {
        let exact = Dimensionality::new_dim(dim.clone(), pow);
        if let Some(i) = find_quantity_dim(&self.quantities, &exact) {
            proof {
                reveal_strlit(" ");
                assert(" "@ =~= seq![' ']);
            }
            out.append(" ");
            out.append(self.quantities[i].1.as_str());
            return;
        }
        let bare = Dimensionality::base_unit(dim.clone());
        if let Some(i) = find_quantity_dim(&self.quantities, &bare) {
            proof {
                reveal_strlit(" ");
                assert(" "@ =~= seq![' ']);
            }
            out.append(" ");
            out.append(self.quantities[i].1.as_str());
        } else {
            proof {
                reveal_strlit(" '");
                reveal_strlit("'");
                assert(" '"@ =~= seq![' ', '\'']);
                assert("'"@ =~= seq!['\'']);
            }
            out.append(" '");
            out.append(dim.id.as_str());
            out.append("'");
        }
        if pow != 1 {
            proof {
                reveal_strlit("^");
                assert("^"@ =~= seq!['^']);
            }
            out.append("^");
            crate::text::append_int(out, pow, 10);
        }
    }

    /// Describes a value's unit; the flag is true when the unit is
    /// reciprocal (a renderer should phrase it as "1 / ..." or replace
    /// multiplication with division).
    pub fn describe_unit(&self, value: &Number) -> (r: (bool, String))
        requires
            self.wf(),
            value.wf(),
            forall|i: int| 0 <= i < value.unit@.len() ==> (#[trigger] value.unit@[i]).1
                != i64::MIN,
        ensures
            r.0 == describe_spec(self, value.unit).0,
            r.1@ == describe_spec(self, value.unit).1,
    {
        if let Some(sq) = value.unit.root(2) {
            if let Some(i) = find_quantity_dim(&self.quantities, &sq) {
                let mut out = String::new();
                out.append(self.quantities[i].1.as_str());
                proof {
                    reveal_strlit("^2");
                    assert("^2"@ =~= seq!['^', '2']);
                }
                out.append("^2");
                return (false, out);
            }
        }
        if let Some(i) = find_quantity_dim(&self.quantities, &value.unit) {
            return (false, self.quantities[i].1.clone());
        }
        let inv = match value.unit.checked_inverse() {
            Some(d) => d,
            None => {
                proof {
                    assert(false);
                }
                Dimensionality::dimensionless()
            },
        };
        if let Some(i) = find_quantity_dim(&self.quantities, &inv) {
            return (true, self.quantities[i].1.clone());
        }
        let ghost u = value.unit@;
        let mut buf = String::new();
        let mut found = false;
        let mut any_neg = false;
        let mut i: usize = 0;
        proof {
            assert(u.take(0) =~= Seq::<(Seq<char>, int)>::empty());
        }
        while i < value.unit.entries.len()
            invariant
                self.wf(),
                value.wf(),
                u == value.unit@,
                i <= u.len(),
                buf@ == group_text(self, u.take(i as int), false),
                found == has_pos(u.take(i as int)),
                any_neg == has_neg(u.take(i as int)),
                found ==> buf@.len() >= 1,
                !found ==> buf@.len() == 0,
            decreases u.len() - i,
        {
            let e = &value.unit.entries[i];
            proof {
                assert(u.take(i as int + 1).drop_last() =~= u.take(i as int));
                assert(u.take(i as int + 1).last() == u[i as int]);
            }
            if e.1 >= 0 {
                found = true;
                self.describe_helper(&e.0, e.1, &mut buf);
                proof {
                    assert(u[i as int].1 >= 0);
                }
            } else {
                proof {
                    assert(u[i as int].1 < 0);
                }
                any_neg = true;
            }
            i += 1;
        }
        proof {
            assert(u.take(u.len() as int) =~= u);
        }
        let mut recip = false;
        if any_neg {
            if !found {
                recip = true;
            } else {
                proof {
                    reveal_strlit(" /");
                    assert(" /"@ =~= seq![' ', '/']);
                }
                buf.append(" /");
            }
            let ghost mid = buf@;
            let mut j: usize = 0;
            proof {
                assert(u.take(0) =~= Seq::<(Seq<char>, int)>::empty());
            }
            while j < value.unit.entries.len()
                invariant
                    self.wf(),
                    value.wf(),
                    u == value.unit@,
                    forall|x: int| 0 <= x < u.len() ==> (#[trigger] u[x]).1 != i64::MIN,
                    j <= u.len(),
                    buf@ == mid + group_text(self, u.take(j as int), true),
                decreases u.len() - j,
            {
                let e = &value.unit.entries[j];
                proof {
                    assert(u.take(j as int + 1).drop_last() =~= u.take(j as int));
                    assert(u.take(j as int + 1).last() == u[j as int]);
                }
                if e.1 < 0 {
                    proof {
                        assert(u[j as int].1 < 0);
                        assert(u[j as int].1 != i64::MIN);
                    }
                    self.describe_helper(&e.0, -e.1, &mut buf);
                }
                j += 1;
            }
            proof {
                assert(u.take(u.len() as int) =~= u);
            }
        }
        proof {
            if u.len() > 0 {
                assert(u[0].1 >= 0 || u[0].1 < 0);
                if u[0].1 >= 0 {
                    assert(has_pos(u));
                } else {
                    assert(has_neg(u));
                }
                assert(buf@.len() >= 1) by {
                    if !found && !any_neg {
                        assert(false);
                    }
                    if any_neg {
                        lemma_group_text_neg_nonempty(self, u);
                    }
                }
            }
        }
        if buf.as_str().unicode_len() == 0 {
            proof {
                assert(buf@ =~= Seq::<char>::empty());
            }
            return (recip, buf);
        }
        let text = str_after(buf.as_str(), 1).to_owned();
        proof {
            assert(text@ =~= buf@.drop_first());
        }
        (recip, text)
    }
}

/// A group rendering over a sequence with a negative exponent is not
/// empty: each rendered pair contributes at least a space.
proof fn lemma_group_text_neg_nonempty(ctx: &Context, s: Seq<(Seq<char>, int)>)
    requires
        has_neg(s),
    ensures
        group_text(ctx, s, true).len() >= 1,
    decreases s.len(),
{
    if s.len() > 0 {
        if s.last().1 < 0 {
            assert(helper_spec(ctx, s.last().0, -s.last().1).len() >= 1);
        } else {
            assert forall|i: int| 0 <= i < s.len() && s[i].1 < 0 implies i < s.len() - 1 by {}
            let i = choose|i: int| 0 <= i < s.len() && s[i].1 < 0;
            assert(s.drop_last()[i] == s[i]);
            assert(has_neg(s.drop_last()));
            lemma_group_text_neg_nonempty(ctx, s.drop_last());
        }
    }
}

} // verus!
