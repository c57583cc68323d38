//! The numeric presentation layer: renders a raw/converted value pair
//! into a structured reply with exact and approximate numeric text and
//! a readable unit string, suppressing trivial scale factors.

use vstd::prelude::*;
use crate::context::Context;
use crate::describe::quantity_name;
use crate::dimension::{BaseUnit, Dimensionality};
use crate::number::Number;
use crate::rational::{abs_int, spec_reduced, Numeric};
use crate::text::{append_digit, append_int, digit_char, spec_int_string};

verus! {

/// How many digits the numeric rendering carries.
#[derive(Clone, Copy, Debug)]
pub enum Digits {
    Default,
    FullInt,
    Digits(u64),
}

/// The number of fractional digits rendered for a given setting.
pub open spec fn digit_count(d: Digits) -> nat {
    match d {
        Digits::Default => 6,
        Digits::FullInt => 6,
        Digits::Digits(n) => if n > 32 {
            32
        } else {
            n as nat
        },
    }
}

/// The fractional digits of `rem / den` in the given radix, by long
/// division, `k` digits long.
pub open spec fn spec_frac_digits(rem: nat, den: nat, base: nat, k: nat) -> Seq<char>
    recommends
        den >= 1,
        rem < den,
    decreases k,
{
    if k == 0 || den == 0 {
        Seq::empty()
    } else {
        seq![digit_char(((rem * base) / den) as int)] + spec_frac_digits(
            (rem * base) % den,
            den,
            base,
            (k - 1) as nat,
        )
    }
}

/// The approximate rendering of the reduced fraction `n / d`: sign,
/// integer part, a point, then `k` fractional digits, truncated.
pub open spec fn spec_approx_string(n: int, d: int, base: nat, k: nat) -> Seq<char>
    recommends
        d >= 2,
{
    let m = abs_int(n);
    let sign: Seq<char> = if n < 0 {
        seq!['-']
    } else {
        Seq::empty()
    };
    sign + spec_int_string((m / (d as nat)) as int, base) + seq!['.'] + spec_frac_digits(
        m % (d as nat),
        d as nat,
        base,
        k,
    )
}

impl Numeric {
    /// The exact and approximate textual values at the given radix and
    /// precision: integers render exactly, anything else approximately.
    pub fn numeric_value(&self, base: u64, digits: Digits) -> (r: (Option<String>, Option<String>))
        requires
            self.wf(),
            2 <= base <= 36,
        ensures
            ({
                let rn = spec_reduced(self.num as int, self.den as int).0;
                let rd = spec_reduced(self.num as int, self.den as int).1;
                if rd == 1 {
                    &&& r.0 is Some
                    &&& r.0->0@ == spec_int_string(rn, base as nat)
                    &&& r.1 is None
                } else {
                    &&& r.0 is None
                    &&& r.1 is Some
                    &&& r.1->0@ == spec_approx_string(rn, rd, base as nat, digit_count(digits))
                }
            }),
    {
        let (n, d) = self.to_rational();
        if d == 1 {
            let mut out = String::new();
            append_int(&mut out, n, base);
            (Some(out), None)
        } else {
            let mut out = String::new();
            let m: u64 = if n >= 0 {
                n as u64
            } else if n == i64::MIN {
                9223372036854775808u64
            } else {
                (-n) as u64
            };
            proof {
                assert(m == abs_int(n as int));
            }
            if n < 0 {
                proof {
                    reveal_strlit("-");
                    assert("-"@ =~= seq!['-']);
                }
                out.append("-");
            }
            let du = d as u64;
            let ip: u64 = m / du;
            let mut rem: u64 = m % du;
            proof {
                assert(ip <= 0x4000000000000000) by (nonlinear_arith)
                    requires
                        ip == m as nat / du as nat,
                        du >= 2,
                        m <= 0x8000000000000000,
                ;
            }
            append_int(&mut out, ip as i64, base);
            proof {
                reveal_strlit(".");
                assert("."@ =~= seq!['.']);
            }
            out.append(".");
            let k: usize = match digits {
                Digits::Default => 6,
                Digits::FullInt => 6,
                Digits::Digits(x) => if x > 32 {
                    32
                } else {
                    x as usize
                },
            };
            let ghost kk = digit_count(digits);
            let ghost rem0 = rem as nat;
            let ghost pre = out@;
            proof {
                assert(out@.skip(pre.len() as int) =~= Seq::<char>::empty());
            }
            let mut t2: usize = 0;
            while t2 < k
                invariant
                    2 <= base <= 36,
                    2 <= du,
                    t2 <= k,
                    k == kk,
                    rem < du,
                    out@.len() >= pre.len(),
                    out@.subrange(0, pre.len() as int) == pre,
                    out@.skip(pre.len() as int) + spec_frac_digits(
                        rem as nat,
                        du as nat,
                        base as nat,
                        (kk - t2) as nat,
                    ) == spec_frac_digits(rem0, du as nat, base as nat, kk),
                decreases k - t2,
            {
                proof {
                    assert((rem as int) * (base as int) < 0x100000000000000000000) by (
                    nonlinear_arith)
                        requires
                            (rem as int) >= 0,
                            (rem as int) < 0x10000000000000000,
                            (base as int) >= 0,
                            (base as int) <= 36,
                    ;
                }
                let r2: u128 = (rem as u128) * (base as u128);
                proof {
                    assert(r2 == rem as nat * base as nat);
                    assert((r2 as nat) / (du as nat) < base as nat) by (nonlinear_arith)
                        requires
                            r2 as nat == rem as nat * base as nat,
                            rem < du,
                            2 <= du,
                            2 <= base,
                    ;
                }
                let digit: u64 = (r2 / (du as u128)) as u64;
                let nrem: u64 = (r2 % (du as u128)) as u64;
                let ghost prev_out = out@;
                let ghost prev_rem = rem as nat;
                proof {
                    lemma_frac_digits_step(prev_rem, du as nat, base as nat, (kk - t2) as nat);
                }
                append_digit(&mut out, digit);
                rem = nrem;
                t2 += 1;
                proof {
                    assert(out@.subrange(0, pre.len() as int) =~= pre);
                    assert(out@.skip(pre.len() as int) =~= prev_out.skip(pre.len() as int)
                        + seq![digit_char(digit as int)]);
                    assert(out@.skip(pre.len() as int) + spec_frac_digits(
                        rem as nat,
                        du as nat,
                        base as nat,
                        (kk - t2) as nat,
                    ) =~= prev_out.skip(pre.len() as int) + spec_frac_digits(
                        prev_rem,
                        du as nat,
                        base as nat,
                        (kk - t2 + 1) as nat,
                    ));
                }
            }
            proof {
                assert(spec_frac_digits(rem as nat, du as nat, base as nat, 0) =~= Seq::<
                    char,
                >::empty());
                assert(out@ =~= pre + spec_frac_digits(rem0, du as nat, base as nat, kk));
                assert(out@ =~= spec_approx_string(
                    spec_reduced(self.num as int, self.den as int).0,
                    spec_reduced(self.num as int, self.den as int).1,
                    base as nat,
                    kk,
                ));
            }
            (None, Some(out))
        }
    }
}

/// One frac-digit step: the digit sequence unfolds at the front.
proof fn lemma_frac_digits_step(rem: nat, den: nat, base: nat, k: nat)
    requires
        den >= 1,
        k >= 1,
    ensures
        spec_frac_digits(rem, den, base, k) == seq![digit_char(((rem * base) / den) as int)]
            + spec_frac_digits((rem * base) % den, den, base, (k - 1) as nat),
{
}

/// The rendering of one (name, exponent) pair of a compound unit name.
pub open spec fn unit_pair_text(dim: Seq<char>, pow: int) -> Seq<char> {
    if pow != 1 {
        seq![' '] + dim + seq!['^'] + spec_int_string(pow, 10)
    } else {
        seq![' '] + dim
    }
}

/// One group of a compound unit name, in entry order.
pub open spec fn unit_group_text(s: Seq<(Seq<char>, int)>, neg: bool) -> Seq<char>
    decreases s.len(),
{
    if s.len() == 0 {
        Seq::empty()
    } else {
        let rest = unit_group_text(s.drop_last(), neg);
        let e = s.last();
        if neg {
            if e.1 < 0 {
                rest + unit_pair_text(e.0, -e.1)
            } else {
                rest
            }
        } else {
            if e.1 >= 0 {
                rest + unit_pair_text(e.0, e.1)
            } else {
                rest
            }
        }
    }
}

/// Whether some exponent of the name is negative.
pub open spec fn unit_has_neg(s: Seq<(Seq<char>, int)>) -> bool {
    exists|i: int| 0 <= i < s.len() && s[i].1 < 0
}

/// The readable text of a compound unit name: names with their powers,
/// a `/` before the negated group, and the leading space trimmed.
pub open spec fn unit_string_spec(s: Seq<(Seq<char>, int)>) -> Seq<char> {
    let pos = unit_group_text(s, false);
    let all: Seq<char> = if unit_has_neg(s) {
        pos + seq![' ', '/'] + unit_group_text(s, true)
    } else {
        pos
    };
    if all.len() == 0 {
        all
    } else {
        all.drop_first()
    }
}

impl Number {
    /// Renders a compound unit name into readable text.
    pub fn unit_to_string(unit: &Dimensionality) -> (r: String)
        requires
            crate::dimension::entries_sorted(unit@),
            forall|i: int| 0 <= i < unit@.len() ==> (#[trigger] unit@[i]).1 != i64::MIN,
        ensures
            r@ == unit_string_spec(unit@),
    {
        let ghost u = unit@;
        let mut buf = String::new();
        let mut any_neg = false;
        let mut i: usize = 0;
        proof {
            assert(u.take(0) =~= Seq::<(Seq<char>, int)>::empty());
        }
        while i < unit.entries.len()
            invariant
                u == unit@,
                i <= u.len(),
                buf@ == unit_group_text(u.take(i as int), false),
                any_neg == unit_has_neg(u.take(i as int)),
            decreases u.len() - i,
        {
            let e = &unit.entries[i];
            proof {
                assert(u.take(i as int + 1).drop_last() =~= u.take(i as int));
                assert(u.take(i as int + 1).last() == u[i as int]);
            }
            if e.1 >= 0 {
                append_unit_pair(&mut buf, &e.0, e.1);
            } else {
                proof {
                    assert(u[i as int].1 < 0);
                }
                any_neg = true;
            }
            i += 1;
        }
        proof {
            assert(u.take(u.len() as int) =~= u);
        }
        if any_neg {
            proof {
                reveal_strlit(" /");
                assert(" /"@ =~= seq![' ', '/']);
            }
            buf.append(" /");
            let ghost mid = buf@;
            let mut j: usize = 0;
            proof {
                assert(u.take(0) =~= Seq::<(Seq<char>, int)>::empty());
            }
            while j < unit.entries.len()
                invariant
                    u == unit@,
                    forall|x: int| 0 <= x < u.len() ==> (#[trigger] u[x]).1 != i64::MIN,
                    j <= u.len(),
                    buf@ == mid + unit_group_text(u.take(j as int), true),
                decreases u.len() - j,
            {
                let e = &unit.entries[j];
                proof {
                    assert(u.take(j as int + 1).drop_last() =~= u.take(j as int));
                    assert(u.take(j as int + 1).last() == u[j as int]);
                }
                if e.1 < 0 {
                    proof {
                        assert(u[j as int].1 != i64::MIN);
                    }
                    append_unit_pair(&mut buf, &e.0, -e.1);
                }
                j += 1;
            }
            proof {
                assert(u.take(u.len() as int) =~= u);
            }
        }
        if buf.as_str().unicode_len() == 0 {
            buf
        } else {
            let r = crate::text::str_after(buf.as_str(), 1).to_owned();
            proof {
                assert(r@ =~= buf@.drop_first());
            }
            r
        }
    }
}

/// Appends one (name, exponent) pair of a compound unit name.
fn append_unit_pair(out: &mut String, dim: &BaseUnit, pow: i64)
    ensures
        final(out)@ == old(out)@ + unit_pair_text(dim@, pow as int),
{
    proof {
        reveal_strlit(" ");
        assert(" "@ =~= seq![' ']);
    }
    out.append(" ");
    out.append(dim.id.as_str());
    if pow != 1 {
        proof {
            reveal_strlit("^");
            assert("^"@ =~= seq!['^']);
        }
        out.append("^");
        append_int(out, pow, 10);
    }
}

impl Context {
    /// Builds the structured reply for a conversion: exact and
    /// approximate text for the raw value, the scale factor reduced to
    /// lowest terms with trivial factors suppressed, and the target
    /// unit rendered both raw and as text.
    pub fn show(
        &self,
        raw: &Number,
        bottom: &Number,
        bottom_name: Vec<(String, i64)>,
        bottom_const: Numeric,
        base: u8,
        digits: Digits,
    ) -> (r: ConversionReply)
        requires
            self.wf(),
            raw.wf(),
            bottom.wf(),
            bottom_const.wf(),
            2 <= base <= 36,
            forall|i: int, j: int|
                0 <= i < j < bottom_name@.len() ==> crate::text::lex_lt(
                    bottom_name@[i].0@,
                    bottom_name@[j].0@,
                ),
            forall|i: int| 0 <= i < bottom_name@.len() ==> (#[trigger] bottom_name@[i]).1
                != i64::MIN,
        ensures
            ({
                let rn = spec_reduced(raw.value.num as int, raw.value.den as int).0;
                let rd = spec_reduced(raw.value.num as int, raw.value.den as int).1;
                if rd == 1 {
                    r.value.exact_value is Some && r.value.exact_value->0@ == spec_int_string(
                        rn,
                        base as nat,
                    ) && r.value.approx_value is None
                } else {
                    r.value.exact_value is None && r.value.approx_value is Some
                        && r.value.approx_value->0@ == spec_approx_string(
                        rn,
                        rd,
                        base as nat,
                        digit_count(digits),
                    )
                }
            }),
            ({
                let cn = spec_reduced(bottom_const.num as int, bottom_const.den as int).0;
                &&& (cn == 1 ==> r.value.factor is None)
                &&& (cn != 1 ==> r.value.factor is Some && r.value.factor->0@ == spec_int_string(
                    cn,
                    10,
                ))
            }),
            ({
                let cd = spec_reduced(bottom_const.num as int, bottom_const.den as int).1;
                &&& (cd == 1 ==> r.value.divfactor is None)
                &&& (cd != 1 ==> r.value.divfactor is Some && r.value.divfactor->0@
                    == spec_int_string(cd, 10))
            }),
            r.value.raw_unit is Some,
            r.value.raw_unit->0@ == bottom_name@.map_values(
                |e: (String, i64)| (e.0@, e.1 as int),
            ),
            r.value.unit is Some,
            r.value.unit->0@ == unit_string_spec(
                bottom_name@.map_values(|e: (String, i64)| (e.0@, e.1 as int)),
            ),
            match quantity_name(self.quantities@, bottom.unit.to_map()) {
                Some(t) => r.value.quantity is Some && r.value.quantity->0@ == t,
                None => r.value.quantity is None,
            },
            r.value.raw_value is Some && r.value.raw_value->0.model() == raw.model(),
    {
        let (exact, approx) = raw.value.numeric_value(base as u64, digits);
        let mut named: Vec<(BaseUnit, i64)> = Vec::new();
        let mut i: usize = 0;
        while i < bottom_name.len()
            invariant
                i <= bottom_name@.len(),
                named@.len() == i,
                forall|j: int| 0 <= j < i ==> (#[trigger] named@[j]).0@ == bottom_name@[j].0@
                    && named@[j].1 == bottom_name@[j].1,
            decreases bottom_name@.len() - i,
        {
            let e = &bottom_name[i];
            named.push((BaseUnit::new(e.0.as_str()), e.1));
            i += 1;
        }
        let named = Dimensionality { entries: named };
        proof {
            assert(named@ =~= bottom_name@.map_values(|e: (String, i64)| (e.0@, e.1 as int)));
            assert forall|x: int, y: int|
                0 <= x < y < named@.len() implies crate::text::lex_lt(
                named@[x].0,
                named@[y].0,
            ) by {
                assert(named@[x].0 == bottom_name@[x].0@ && named@[y].0 == bottom_name@[y].0@);
            }
        }
        let (cn, cd) = bottom_const.to_rational();
        let factor = if cn != 1 {
            let mut f = String::new();
            append_int(&mut f, cn, 10);
            Some(f)
        } else {
            None
        };
        let divfactor = if cd != 1 {
            let mut f = String::new();
            append_int(&mut f, cd, 10);
            Some(f)
        } else {
            None
        };
        let unit_text = Number::unit_to_string(&named);
        let quantity = match crate::describe::find_quantity_dim(&self.quantities, &bottom.unit) {
            Some(q) => Some(self.quantities[q].1.clone()),
            None => None,
        };
        ConversionReply {
            value: NumberParts {
                exact_value: exact,
                approx_value: approx,
                factor,
                divfactor,
                raw_unit: Some(named),
                unit: Some(unit_text),
                quantity,
                raw_value: Some(raw.clone()),
            },
        }
    }
}

/// The structured numeric reply: exact and approximate text, the scale
/// factor split into numerator and denominator text (suppressed when
/// trivial), the target unit both raw and rendered, the quantity name
/// if one is registered, and the raw value itself.
#[derive(Debug)]
pub struct NumberParts {
    pub exact_value: Option<String>,
    pub approx_value: Option<String>,
    pub factor: Option<String>,
    pub divfactor: Option<String>,
    pub raw_unit: Option<Dimensionality>,
    pub unit: Option<String>,
    pub quantity: Option<String>,
    pub raw_value: Option<Number>,
}

/// The reply to a conversion query.
#[derive(Debug)]
pub struct ConversionReply {
    pub value: NumberParts,
}

/// A failed name resolution, with an optional suggestion.
#[derive(Debug)]
pub struct NotFoundError {
    pub got: String,
    pub suggestion: Option<String>,
}

} // verus!
