use unit_registry::ast::{DatePattern, Def, Defs, Timestamp};
use unit_registry::context::Context;
use unit_registry::dimension::{BaseUnit, Dimensionality};
use unit_registry::number::Number;
use unit_registry::output::Digits;
use unit_registry::rational::Numeric;

fn dim1(name: &str, pow: i64) -> Dimensionality {
    Dimensionality::new_dim(BaseUnit::new(name), pow)
}

fn num(n: i64, d: i64, unit: Dimensionality) -> Number {
    Number { value: Numeric::new(n, d), unit }
}

#[test]
fn trivial_scale_factor_is_suppressed() {
    let ctx = Context::new();
    let raw = num(5, 1, dim1("length", 1));
    let bottom = num(5, 1, dim1("length", 1));
    let name = vec![("meter".to_string(), 1i64)];
    // 2/2 reduces to 1/1: no factor, no divfactor.
    let reply = ctx.show(&raw, &bottom, name, Numeric::new(2, 2), 10, Digits::Default);
    assert!(reply.value.factor.is_none());
    assert!(reply.value.divfactor.is_none());
}

#[test]
fn nontrivial_scale_factor_is_shown() {
    let ctx = Context::new();
    let raw = num(5, 1, dim1("length", 1));
    let bottom = num(5, 1, dim1("length", 1));
    let name = vec![("meter".to_string(), 1i64)];
    let reply = ctx.show(&raw, &bottom, name, Numeric::new(6, 4), 10, Digits::Default);
    assert_eq!(reply.value.factor.as_deref(), Some("3"));
    assert_eq!(reply.value.divfactor.as_deref(), Some("2"));
}

#[test]
fn show_renders_unit_and_values() {
    let mut ctx = Context::new();
    ctx.load(Defs {
        defs: vec![
            Def::Quantity { name: "area".to_string(), unit: dim1("length", 2) },
        ],
    });
    let raw = num(1000, 1, dim1("length", 2));
    let bottom = num(1, 1, dim1("length", 2));
    let name = vec![("meter".to_string(), 2i64), ("second".to_string(), -1i64)];
    let reply = ctx.show(&raw, &bottom, name, Numeric::new(1, 1), 10, Digits::Default);
    assert_eq!(reply.value.exact_value.as_deref(), Some("1000"));
    assert!(reply.value.approx_value.is_none());
    assert_eq!(reply.value.unit.as_deref(), Some("meter^2 / second"));
    assert_eq!(reply.value.quantity.as_deref(), Some("area"));
    let raw_unit = reply.value.raw_unit.unwrap();
    assert_eq!(raw_unit.entries.len(), 2);
    assert_eq!(raw_unit.entries[0].0.id, "meter");
    assert_eq!(raw_unit.entries[0].1, 2);
}

#[test]
fn fractions_render_approximately() {
    let v = Numeric::new(1, 2);
    let (exact, approx) = v.numeric_value(10, Digits::Default);
    assert!(exact.is_none());
    assert_eq!(approx.as_deref(), Some("0.500000"));
    let w = Numeric::new(-7, 3);
    let (exact2, approx2) = w.numeric_value(10, Digits::Digits(3));
    assert!(exact2.is_none());
    assert_eq!(approx2.as_deref(), Some("-2.333"));
}

#[test]
fn integers_render_exactly() {
    let v = Numeric::new(-255, 1);
    let (exact, approx) = v.numeric_value(16, Digits::Default);
    assert_eq!(exact.as_deref(), Some("-ff"));
    assert!(approx.is_none());
    let w = Numeric::new(12, 4);
    let (exact2, _) = w.numeric_value(10, Digits::Default);
    assert_eq!(exact2.as_deref(), Some("3"));
}

#[test]
fn to_rational_reduces() {
    assert_eq!(Numeric::new(6, 4).to_rational(), (3, 2));
    assert_eq!(Numeric::new(-6, 4).to_rational(), (-3, 2));
    assert_eq!(Numeric::new(0, 5).to_rational(), (0, 1));
}

#[test]
fn dimensionality_algebra() {
    let a = dim1("m", 1);
    let b = dim1("m", -1);
    let product = a.checked_mul(&b).unwrap();
    assert_eq!(product.entries.len(), 0);
    let sq = dim1("m", 4);
    let root = sq.root(2).unwrap();
    assert!(root.dim_eq(&dim1("m", 2)));
    assert!(dim1("m", 3).root(2).is_none());
    let inv = dim1("m", 2).checked_inverse().unwrap();
    assert!(inv.dim_eq(&dim1("m", -2)));
}

#[test]
fn clock_and_dates() {
    let mut ctx = Context::new();
    assert_eq!(ctx.now, Timestamp { secs: 0, nanos: 0 });
    ctx.set_time(Timestamp { secs: 12345, nanos: 6 });
    assert_eq!(ctx.now, Timestamp { secs: 12345, nanos: 6 });
    ctx.update_time();
    assert!(ctx.now.nanos < 2_000_000_000);
    ctx.load_dates(vec![vec![DatePattern::Match("year".to_string()), DatePattern::Dash]]);
    assert_eq!(ctx.datepatterns.len(), 1);
}

#[test]
fn humanize_respects_flag() {
    let mut ctx = Context::new();
    let t = Timestamp { secs: 1_600_000_000, nanos: 0 };
    ctx.use_humanize = false;
    assert!(ctx.humanize(t).is_none());
    ctx.use_humanize = true;
    let text = ctx.humanize(t);
    assert!(text.is_some());
}

#[test]
fn rendering_edge_cases() {
    // zero renders as a bare zero digit in any radix
    let z = Numeric::new(0, 1);
    let (exact, approx) = z.numeric_value(2, Digits::Default);
    assert_eq!(exact.as_deref(), Some("0"));
    assert!(approx.is_none());
    // base two fractions
    let q = Numeric::new(3, 4);
    let (_, approx2) = q.numeric_value(2, Digits::Digits(4));
    assert_eq!(approx2.as_deref(), Some("0.1100"));
    // an empty compound name renders as empty text
    assert_eq!(Number::unit_to_string(&Dimensionality::dimensionless()), "");
}

#[test]
fn unit_to_string_reciprocal_only() {
    let d = dim1("second", -1);
    assert_eq!(Number::unit_to_string(&d), "/ second");
}

#[test]
fn root_by_one_is_identity() {
    let d = dim1("m", 3);
    let r = d.root(1).unwrap();
    assert!(r.dim_eq(&dim1("m", 3)));
}
