//! General laws of the resolver and describer, stated and proved over
//! the same specification functions that the public contracts use.

use vstd::prelude::*;
use crate::canonical::{canon_inner_spec, canon_outer_spec, canon_prefix_spec, pick_prefix};
use crate::context::Context;
use crate::describe::{all_even, describe_spec, quantity_name};
use crate::dimension::{div_map, neg_map, Dimensionality};
use crate::lookup::{inner_spec, lookup_spec, outer_spec, prefix_spec};
use crate::number::{model_mul, number_eq, Number};

verus! {

/// The prefix pass skips indices whose prefix does not apply.
proof fn lemma_prefix_skip(ctx: &Context, name: Seq<char>, i: int)
    requires
        0 <= i <= ctx.prefixes@.len(),
        forall|j: int|
            0 <= j < i ==> !((#[trigger] ctx.prefixes@[j]).0@.is_prefix_of(name) && inner_spec(
                ctx,
                name.skip(ctx.prefixes@[j].0@.len() as int),
            ) is Some),
    ensures
        prefix_spec(ctx, name, 0) == prefix_spec(ctx, name, i),
    decreases i,
{
    if i > 0 {
        lemma_prefix_skip(ctx, name, i - 1);
        assert(prefix_spec(ctx, name, i - 1) == prefix_spec(ctx, name, i));
    }
}

/// Prefix scaling: when a name is not itself directly registered, and
/// a registered prefix starts it, and the remainder resolves directly,
/// and no earlier-registered prefix also applies, then the whole name
/// resolves to the remainder's value scaled by the prefix multiplier.
pub proof fn lemma_prefix_scales(ctx: &Context, name: Seq<char>, i: int)
    requires
        inner_spec(ctx, name) is None,
        0 <= i < ctx.prefixes@.len(),
        ctx.prefixes@[i].0@.is_prefix_of(name),
        inner_spec(ctx, name.skip(ctx.prefixes@[i].0@.len() as int)) is Some,
        forall|j: int|
            0 <= j < i ==> !((#[trigger] ctx.prefixes@[j]).0@.is_prefix_of(name) && inner_spec(
                ctx,
                name.skip(ctx.prefixes@[j].0@.len() as int),
            ) is Some),
    ensures
        lookup_spec(ctx, name) == Some(
            model_mul(
                inner_spec(ctx, name.skip(ctx.prefixes@[i].0@.len() as int))->0,
                ctx.prefixes@[i].1.model(),
            ),
        ),
{
    lemma_prefix_skip(ctx, name, i);
    assert(prefix_spec(ctx, name, i) == Some(
        model_mul(
            inner_spec(ctx, name.skip(ctx.prefixes@[i].0@.len() as int))->0,
            ctx.prefixes@[i].1.model(),
        ),
    ));
}

/// Prefix-then-plural precedence: whenever the full pass on the name
/// itself succeeds (directly or through a prefix), the plural fallback
/// is never consulted.
pub proof fn lemma_prefix_before_plural(ctx: &Context, name: Seq<char>)
    requires
        outer_spec(ctx, name) is Some,
    ensures
        lookup_spec(ctx, name) == outer_spec(ctx, name),
{
}

/// Reserved names read the previous result: when a previous result is
/// stored, a reserved name resolves to exactly it.
pub proof fn lemma_previous_result(ctx: &Context, name: Seq<char>, n: crate::number::Number)
    requires
        crate::lookup::is_reserved(name),
        ctx.previous_result == Some(n),
    ensures
        lookup_spec(ctx, name) == Some(n.model()),
{
}

/// The prefix-spelling scan returns its starting spelling or one
/// registered with a multiplier numerically equal to `v`.
proof fn lemma_pick_prefix_result(s: Seq<(String, Number)>, j: int, cur: Seq<char>, v: Number)
    ensures
        pick_prefix(s, j, cur, v) == cur || exists|x: int|
            0 <= x < s.len() && s[x].0@ == pick_prefix(s, j, cur, v) && number_eq(s[x].1, v),
    decreases s.len() - j,
{
    if j < 0 || j >= s.len() {
    } else if vstd::utf8::encode_utf8(s[j].0@).len() > vstd::utf8::encode_utf8(cur).len()
        && number_eq(s[j].1, v) {
        lemma_pick_prefix_result(s, j + 1, s[j].0@, v);
        if pick_prefix(s, j + 1, s[j].0@, v) == s[j].0@ {
            assert(s[j].0@ == pick_prefix(s, j, cur, v) && number_eq(s[j].1, v));
        }
    } else {
        lemma_pick_prefix_result(s, j + 1, cur, v);
    }
}

/// The canonicalization prefix pass skips indices whose prefix does
/// not apply.
proof fn lemma_canon_prefix_skip(ctx: &Context, name: Seq<char>, i: int, fuel: nat)
    requires
        0 <= i <= ctx.prefixes@.len(),
        forall|j: int|
            0 <= j < i ==> !((#[trigger] ctx.prefixes@[j]).0@.is_prefix_of(name)
                && canon_inner_spec(ctx, name.skip(ctx.prefixes@[j].0@.len() as int), fuel)
                is Some),
    ensures
        canon_prefix_spec(ctx, name, 0, fuel) == canon_prefix_spec(ctx, name, i, fuel),
    decreases i,
{
    if i > 0 {
        lemma_canon_prefix_skip(ctx, name, i - 1, fuel);
    }
}

/// Canonical prefix spelling: when the prefix pass of canonicalization
/// fires on a prefix, the spelling it writes into the result is either
/// that prefix itself or a registered prefix with a numerically equal
/// multiplier (the longest such), so the canonical name denotes the
/// same scale and dimensionality as the name it replaces.
pub proof fn lemma_canonical_prefix_value(ctx: &Context, name: Seq<char>, i: int, fuel: nat)
    requires
        canon_inner_spec(ctx, name, fuel) is None,
        0 <= i < ctx.prefixes@.len(),
        ctx.prefixes@[i].0@.is_prefix_of(name),
        canon_inner_spec(ctx, name.skip(ctx.prefixes@[i].0@.len() as int), fuel) is Some,
        forall|j: int|
            0 <= j < i ==> !((#[trigger] ctx.prefixes@[j]).0@.is_prefix_of(name)
                && canon_inner_spec(ctx, name.skip(ctx.prefixes@[j].0@.len() as int), fuel)
                is Some),
    ensures
        ({
            let p = ctx.prefixes@[i].0@;
            let v = ctx.prefixes@[i].1;
            let chosen = pick_prefix(ctx.prefixes@, 0, p, v);
            &&& canon_outer_spec(ctx, name, fuel) == Some(
                chosen + canon_inner_spec(ctx, name.skip(p.len() as int), fuel)->0,
            )
            &&& (chosen == p || exists|x: int|
                0 <= x < ctx.prefixes@.len() && ctx.prefixes@[x].0@ == chosen && number_eq(
                    ctx.prefixes@[x].1,
                    v,
                ))
        }),
{
    lemma_canon_prefix_skip(ctx, name, i, fuel);
    lemma_pick_prefix_result(ctx.prefixes@, 0, ctx.prefixes@[i].0@, ctx.prefixes@[i].1);
}

/// Canonical description: classification and text are a function of
/// the registry and the unit's exponent map alone — never of the
/// magnitude, and never of how the unit was built, since well-formed
/// units with equal maps are the same entry list.
pub proof fn lemma_describe_canonical(ctx: &Context, a: Dimensionality, b: Dimensionality)
    requires
        a.wf(),
        b.wf(),
        a.to_map() == b.to_map(),
    ensures
        a@ == b@,
        describe_spec(ctx, a) == describe_spec(ctx, b),
{
    crate::dimension::lemma_canonical_form(a@, b@);
}

/// Inverse description: a unit that matches no quantity directly and
/// has no square-of-quantity reading, but whose inverse is a registered
/// quantity, is always described as reciprocal, under that quantity's
/// name.
pub proof fn lemma_inverse_description(ctx: &Context, u: Dimensionality)
    requires
        !(all_even(u@) && quantity_name(ctx.quantities@, div_map(u.to_map(), 2)) is Some),
        quantity_name(ctx.quantities@, u.to_map()) is None,
        quantity_name(ctx.quantities@, neg_map(u.to_map())) is Some,
    ensures
        describe_spec(ctx, u).0 == true,
        describe_spec(ctx, u).1 == quantity_name(ctx.quantities@, neg_map(u.to_map()))->0,
{
}

} // verus!
