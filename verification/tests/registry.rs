use unit_registry::ast::{Def, Defs, Expr};
use unit_registry::context::Context;
use unit_registry::dimension::{BaseUnit, Dimensionality};
use unit_registry::number::Number;
use unit_registry::rational::Numeric;
use unit_registry::search::edit_distance_one;

fn dim1(name: &str, pow: i64) -> Dimensionality {
    Dimensionality::new_dim(BaseUnit::new(name), pow)
}

fn num(n: i64, d: i64, unit: Dimensionality) -> Number {
    Number { value: Numeric::new(n, d), unit }
}

fn scalar(n: i64) -> Number {
    Number { value: Numeric::new(n, 1), unit: Dimensionality::dimensionless() }
}

/// A registry with a length dimension, meter units, the kilo prefixes,
/// and the "length" quantity.
fn metric() -> Context {
    let mut ctx = Context::new();
    ctx.load(Defs {
        defs: vec![
            Def::Dimension { name: "length".to_string() },
            Def::Unit { name: "meter".to_string(), value: num(1, 1, dim1("length", 1)) },
            Def::Unit { name: "m".to_string(), value: num(1, 1, dim1("length", 1)) },
            Def::Prefix { name: "kilo".to_string(), value: scalar(1000) },
            Def::Prefix { name: "k".to_string(), value: scalar(1000) },
            Def::Quantity { name: "length".to_string(), unit: dim1("length", 1) },
            Def::Canonicalization { name: "m".to_string(), canonical: "meter".to_string() },
        ],
    });
    ctx
}

#[test]
fn lookup_unit_direct() {
    let ctx = metric();
    let v = ctx.lookup("meter").unwrap();
    assert_eq!(v.value.num, 1);
    assert_eq!(v.value.den, 1);
    assert!(v.unit.dim_eq(&dim1("length", 1)));
}

#[test]
fn lookup_prefix_scales() {
    let ctx = metric();
    let v = ctx.lookup("kilometer").unwrap();
    assert_eq!(v.value.num, 1000);
    assert_eq!(v.value.den, 1);
    assert!(v.unit.dim_eq(&dim1("length", 1)));
}

#[test]
fn lookup_plural_fallback() {
    let ctx = metric();
    let v = ctx.lookup("meters").unwrap();
    assert_eq!(v.value.num, 1);
    assert!(v.unit.dim_eq(&dim1("length", 1)));
}

#[test]
fn lookup_quantity_name() {
    let ctx = metric();
    let v = ctx.lookup("length").unwrap();
    assert_eq!(v.value.num, 1);
    assert!(v.unit.dim_eq(&dim1("length", 1)));
}

#[test]
fn lookup_unknown_is_none() {
    let ctx = metric();
    assert!(ctx.lookup("bogus").is_none());
}

#[test]
fn prefix_beats_plural() {
    // "ks" must resolve as kilo-second, not as a plural of a unit
    // literally named "k".
    let mut ctx = Context::new();
    ctx.load(Defs {
        defs: vec![
            Def::Dimension { name: "time".to_string() },
            Def::Unit { name: "second".to_string(), value: num(1, 1, dim1("time", 1)) },
            Def::Unit { name: "s".to_string(), value: num(1, 1, dim1("time", 1)) },
            Def::Unit { name: "k".to_string(), value: scalar(42) },
            Def::Prefix { name: "k".to_string(), value: scalar(1000) },
        ],
    });
    let v = ctx.lookup("ks").unwrap();
    assert_eq!(v.value.num, 1000);
    assert!(v.unit.dim_eq(&dim1("time", 1)));
}

#[test]
fn previous_result_reserved_names() {
    let mut ctx = Context::new();
    assert!(ctx.lookup("ans").is_none());
    assert!(ctx.lookup("_").is_none());
    let n = num(7, 2, dim1("length", 1));
    ctx.previous_result = Some(n);
    let v = ctx.lookup("ans").unwrap();
    assert_eq!(v.value.num, 7);
    assert_eq!(v.value.den, 2);
    assert!(v.unit.dim_eq(&dim1("length", 1)));
    assert!(ctx.lookup("ANS").is_some());
    assert!(ctx.lookup("_").is_some());
}

#[test]
fn temporaries_shadow_units() {
    let mut ctx = metric();
    ctx.temporaries.push(("meter".to_string(), scalar(9)));
    let v = ctx.lookup("meter").unwrap();
    assert_eq!(v.value.num, 9);
}

#[test]
fn canonicalize_prefers_longest_equal_prefix() {
    let ctx = metric();
    assert_eq!(ctx.canonicalize("km").unwrap(), "kilometer");
}

#[test]
fn canonicalize_alias() {
    let ctx = metric();
    assert_eq!(ctx.canonicalize("m").unwrap(), "meter");
}

#[test]
fn canonicalize_walks_definitions() {
    let mut ctx = Context::new();
    ctx.load(Defs {
        defs: vec![
            Def::Definition {
                name: "a".to_string(),
                expr: Expr::Unit { name: "b".to_string() },
            },
            Def::Definition {
                name: "b".to_string(),
                expr: Expr::Unit { name: "c".to_string() },
            },
            Def::Canonicalization { name: "c".to_string(), canonical: "sea".to_string() },
        ],
    });
    assert_eq!(ctx.canonicalize("a").unwrap(), "sea");
}

#[test]
fn canonicalize_cycle_fails_closed() {
    let mut ctx = Context::new();
    ctx.load(Defs {
        defs: vec![
            Def::Definition {
                name: "x".to_string(),
                expr: Expr::Unit { name: "y".to_string() },
            },
            Def::Definition {
                name: "y".to_string(),
                expr: Expr::Unit { name: "x".to_string() },
            },
        ],
    });
    // A cyclic alias chain terminates and yields a last-known name.
    let r = ctx.canonicalize("x").unwrap();
    assert!(r == "x" || r == "y");
}

#[test]
fn canonicalize_raw_definition_keeps_name() {
    let mut ctx = Context::new();
    ctx.load(Defs {
        defs: vec![
            Def::Definition {
                name: "minute".to_string(),
                expr: Expr::Raw { text: "60 second".to_string() },
            },
        ],
    });
    assert_eq!(ctx.canonicalize("minute").unwrap(), "minute");
}

#[test]
fn canonicalize_round_trip_keeps_dimension() {
    let ctx = metric();
    let before = ctx.lookup("km").unwrap();
    let canonical = ctx.canonicalize("km").unwrap();
    let after = ctx.lookup(&canonical).unwrap();
    assert!(before.unit.dim_eq(&after.unit));
}

#[test]
fn describe_inverse_quantity() {
    let ctx = metric();
    let v = num(1, 1, dim1("length", -1));
    let (recip, text) = ctx.describe_unit(&v);
    assert!(recip);
    assert_eq!(text, "length");
}

#[test]
fn describe_direct_and_square() {
    let mut ctx = Context::new();
    ctx.load(Defs {
        defs: vec![
            Def::Dimension { name: "length".to_string() },
            Def::Quantity { name: "area".to_string(), unit: dim1("length", 2) },
        ],
    });
    let flat = num(1, 1, dim1("length", 2));
    let (recip, text) = ctx.describe_unit(&flat);
    assert!(!recip);
    assert_eq!(text, "area");
    let hyper = num(1, 1, dim1("length", 4));
    let (recip2, text2) = ctx.describe_unit(&hyper);
    assert!(!recip2);
    assert_eq!(text2, "area^2");
}

#[test]
fn describe_generic_rendering() {
    let ctx = Context::new();
    let mut unit = dim1("length", 1);
    unit.entries.push((BaseUnit::new("time"), -2));
    let v = num(1, 1, unit);
    let (recip, text) = ctx.describe_unit(&v);
    assert!(!recip);
    assert_eq!(text, "'length' / 'time'^2");
}

#[test]
fn describe_pure_reciprocal_generic() {
    let ctx = Context::new();
    let v = num(1, 1, dim1("time", -1));
    let (recip, text) = ctx.describe_unit(&v);
    assert!(recip);
    assert_eq!(text, "'time'");
}

#[test]
fn typo_suggestion_at_distance_one() {
    let ctx = metric();
    assert_eq!(ctx.typo_dym("metex"), Some("meter"));
    assert_eq!(ctx.typo_dym("mete"), Some("meter"));
    assert_eq!(ctx.typo_dym("meteor"), Some("meter"));
    assert_eq!(ctx.typo_dym("zzz"), None);
    // distance two, not one
    assert_eq!(ctx.typo_dym("mxtxr"), None);
}

#[test]
fn unknown_unit_error_carries_suggestion() {
    let ctx = metric();
    let e = ctx.unknown_unit_err("metre");
    assert_eq!(e.got, "metre");
    assert!(e.suggestion.is_none());
    let e2 = ctx.unknown_unit_err("metes");
    assert_eq!(e2.got, "metes");
    assert_eq!(e2.suggestion.as_deref(), Some("meter"));
}

#[test]
fn edit_distance_one_cases() {
    assert!(edit_distance_one("abc", "abd"));
    assert!(edit_distance_one("abc", "abcd"));
    assert!(edit_distance_one("abcd", "abc"));
    assert!(edit_distance_one("abc", "bc"));
    assert!(!edit_distance_one("abc", "abc"));
    assert!(!edit_distance_one("abc", "axy"));
    assert!(!edit_distance_one("abc", "abcde"));
}

#[test]
fn load_replaces_equal_keys() {
    let mut ctx = Context::new();
    ctx.load(Defs {
        defs: vec![
            Def::Unit { name: "day".to_string(), value: scalar(86400) },
            Def::Unit { name: "day".to_string(), value: scalar(86401) },
        ],
    });
    assert_eq!(ctx.units.len(), 1);
    let v = ctx.lookup("day").unwrap();
    assert_eq!(v.value.num, 86401);
}

#[test]
fn empty_registry_resolves_nothing() {
    let ctx = Context::new();
    assert!(ctx.lookup("meter").is_none());
    assert!(ctx.canonicalize("meter").is_none());
    assert!(ctx.typo_dym("meter").is_none());
}

#[test]
fn describe_dimensionless_unregistered() {
    // a dimensionless value with no registered dimensionless quantity
    // describes as empty text, not an error
    let ctx = Context::new();
    let v = scalar(5);
    let (recip, text) = ctx.describe_unit(&v);
    assert!(!recip);
    assert_eq!(text, "");
}

#[test]
fn describe_is_canonical_in_entry_order() {
    // units built in either multiplication order carry the same sorted
    // entry list and render identically
    let ctx = Context::new();
    let ab = dim1("alpha", 1).checked_mul(&dim1("beta", 1)).unwrap();
    let ba = dim1("beta", 1).checked_mul(&dim1("alpha", 1)).unwrap();
    assert!(ab.dim_eq(&ba));
    let (r1, t1) = ctx.describe_unit(&num(1, 1, ab));
    let (r2, t2) = ctx.describe_unit(&num(1, 1, ba));
    assert_eq!(r1, r2);
    assert_eq!(t1, t2);
    assert_eq!(t1, "'alpha' 'beta'");
}

#[test]
fn default_is_a_new_empty_registry() {
    let d = Context::default();
    assert!(d.dimensions.is_empty());
    assert!(d.units.is_empty());
    assert!(d.definitions.is_empty());
    assert!(d.temporaries.is_empty());
    assert!(d.previous_result.is_none());
    assert!(!d.short_output);
    assert!(d.use_humanize);
    assert!(!d.save_previous_result);
}
