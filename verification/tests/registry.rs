use calc_parser::ast::function::{self, Associativity, Variant};
use calc_parser::ast::Precedence;
use calc_parser::text::{contains_str, str_eq};

#[test]
fn lookup_goes_by_identifier_and_arity() {
    let negate = function::get("-", 1).unwrap();
    let minus = function::get("-", 2).unwrap();
    assert_ne!(negate, minus);
    assert_eq!(negate.arity, 1);
    assert_eq!(negate.precedence, Precedence::L1);
    assert_eq!(minus.arity, 2);
    assert_eq!(minus.precedence, Precedence::L3);
    assert!(function::get("-", 3).is_none());
    assert!(function::get("-", 0).is_none());
}

#[test]
fn table_contents() {
    let rows: [(&str, u8, Variant, Precedence, bool, Associativity); 21] = [
        ("-", 1, Variant::Operator, Precedence::L1, true, Associativity::Left),
        ("^", 2, Variant::Operator, Precedence::L1, false, Associativity::Right),
        ("*", 2, Variant::Operator, Precedence::L2, true, Associativity::Left),
        ("/", 2, Variant::Operator, Precedence::L2, false, Associativity::Left),
        ("%", 2, Variant::Operator, Precedence::L2, false, Associativity::Left),
        ("+", 2, Variant::Operator, Precedence::L3, true, Associativity::Left),
        ("-", 2, Variant::Operator, Precedence::L3, false, Associativity::Left),
        ("!", 1, Variant::Operator, Precedence::L1, true, Associativity::Left),
        ("==", 2, Variant::Operator, Precedence::L4, true, Associativity::Left),
        ("!=", 2, Variant::Operator, Precedence::L4, true, Associativity::Left),
        ("<", 2, Variant::Operator, Precedence::L4, false, Associativity::Left),
        ("<=", 2, Variant::Operator, Precedence::L4, false, Associativity::Left),
        (">", 2, Variant::Operator, Precedence::L4, false, Associativity::Left),
        (">=", 2, Variant::Operator, Precedence::L4, false, Associativity::Left),
        ("&&", 2, Variant::Operator, Precedence::L5, false, Associativity::Left),
        ("^^", 2, Variant::Operator, Precedence::L5, false, Associativity::Left),
        ("||", 2, Variant::Operator, Precedence::L6, false, Associativity::Left),
        ("sqrt", 1, Variant::Routine, Precedence::L1, true, Associativity::Left),
        ("abs", 1, Variant::Routine, Precedence::L1, true, Associativity::Left),
        ("min", 2, Variant::Routine, Precedence::L1, true, Associativity::Left),
        ("max", 2, Variant::Routine, Precedence::L1, true, Associativity::Left),
    ];
    assert_eq!(rows.len(), function::FUNCTION_COUNT);
    for (index, row) in rows.iter().enumerate() {
        let entry = function::entry(index);
        assert_eq!(
            (
                entry.identifier,
                entry.arity,
                entry.variant,
                entry.precedence,
                entry.is_commutative,
                entry.associativity
            ),
            *row
        );
        let found = function::get(row.0, row.1).unwrap();
        assert_eq!(found, entry);
        for arity in 0..=255u8 {
            let expected = rows.iter().any(|r| r.0 == row.0 && r.1 == arity);
            assert_eq!(function::get(row.0, arity).is_some(), expected);
        }
    }
}

#[test]
fn unknown_names_are_absent() {
    for name in ["", "x", "sin", "=", "&", "|", "sqr", "sqrtt", "MIN", "+ "] {
        for arity in 0..4 {
            assert!(function::get(name, arity).is_none());
        }
        assert!(!function::is_known(name));
    }
}

#[test]
fn identifiers_are_the_names_of_the_table_each_once() {
    let names = function::identifiers();
    assert_eq!(names.len(), 20);
    for index in 0..function::FUNCTION_COUNT {
        let name = function::entry(index).identifier;
        assert_eq!(names.iter().filter(|n| **n == name).count(), 1);
        assert!(function::is_known(name));
    }
    for name in &names {
        assert!((0..function::FUNCTION_COUNT).any(|i| function::entry(i).identifier == *name));
    }
}

#[test]
fn precedence_scale() {
    let scale = [
        Precedence::L6,
        Precedence::L5,
        Precedence::L4,
        Precedence::L3,
        Precedence::L2,
        Precedence::L1,
    ];
    for (level, precedence) in scale.iter().enumerate() {
        assert_eq!(precedence.tightness() as usize, level);
    }
    for a in scale {
        for b in scale {
            assert_eq!(a < b, a.tightness() < b.tightness());
            assert_eq!(a == b, a.tightness() == b.tightness());
        }
    }
}

#[test]
fn string_helpers() {
    assert!(str_eq("", ""));
    assert!(str_eq("abc", "abc"));
    assert!(str_eq("héllo", "héllo"));
    assert!(!str_eq("abc", "abd"));
    assert!(!str_eq("abc", "ab"));
    assert!(!str_eq("", "a"));
    assert!(contains_str(&["a", "bc"], "bc"));
    assert!(!contains_str(&["a", "bc"], "b"));
    assert!(!contains_str(&[], ""));
}
