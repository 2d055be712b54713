use exprtk_rs::error::{ParseError, ParseErrorKind};
use exprtk_rs::expression::Expression;
use exprtk_rs::string_value::StringValue;
use exprtk_rs::symbols::{is_valid_name, SymbolTable, EPSILON_BITS, INFINITY_BITS, PI_BITS};

#[test]
fn variable_round_trip() {
    let mut t = SymbolTable::new();
    let i = t.add_variable("x", 0f64.to_bits()).ok().unwrap().unwrap();
    assert_eq!(i, 0);
    assert!(t.set_value(i, 2.5f64.to_bits()));
    assert_eq!(f64::from_bits(t.value(i).unwrap()), 2.5);
    assert!(!t.set_value(7, 1f64.to_bits()));
    assert_eq!(t.value(7), None);
}

#[test]
fn duplicate_name_is_already_present() {
    let mut t = SymbolTable::new();
    let first = t.add_variable("x", 1f64.to_bits()).ok().unwrap();
    assert_eq!(first, Some(0));
    let second = t.add_variable("x", 2f64.to_bits()).ok().unwrap();
    assert_eq!(second, None);
    assert_eq!(f64::from_bits(t.value(0).unwrap()), 1.0);
    assert_eq!(t.variable_count(), 1);
    assert_eq!(t.add_stringvar("x", b"s").ok().unwrap(), None);
    assert_eq!(t.add_vector("x", &[1]).ok().unwrap(), None);
    assert_eq!(t.add_constant("x", 0).ok().unwrap(), false);
}

#[test]
fn empty_name_is_invalid() {
    let mut t = SymbolTable::new();
    let e = t.add_variable("", 0).err().unwrap();
    assert_eq!(e.0, "");
    assert_eq!(t.variable_count(), 0);
    assert!(!t.symbol_exists(""));
    let e = t.add_variable("1x", 0).err().unwrap();
    assert_eq!(e.0, "1x");
    assert!(t.add_stringvar("a.", b"").is_err());
    assert!(t.add_vector("a b", &[]).is_err());
    assert_eq!(t.add_variable("a.b_2", 0).ok().unwrap(), Some(0));
    assert_eq!(t.variable_count(), 1);
}

#[test]
fn identifier_rule() {
    assert!(is_valid_name("x"));
    assert!(is_valid_name("Ab1_c.d"));
    assert!(!is_valid_name(""));
    assert!(!is_valid_name("_x"));
    assert!(!is_valid_name("x."));
    assert!(!is_valid_name("x-y"));
    assert!(!is_valid_name("é"));
}

#[test]
fn ids_are_sequential_per_kind() {
    let mut t = SymbolTable::new();
    assert_eq!(t.add_variable("a", 0).ok().unwrap(), Some(0));
    assert_eq!(t.add_stringvar("s", b"Hello").ok().unwrap(), Some(0));
    assert_eq!(t.add_variable("b", 0).ok().unwrap(), Some(1));
    assert_eq!(t.add_vector("v", &[1, 2, 3]).ok().unwrap(), Some(0));
    assert_eq!(t.get_var_id("b"), Some(1));
    assert_eq!(t.get_var_id("s"), None);
    assert_eq!(t.get_string_id("s"), Some(0));
    assert_eq!(t.get_vec_id("v"), Some(0));
    assert_eq!(t.get_vec_id("zz"), None);
    assert_eq!(t.vector(0).unwrap(), &[1, 2, 3]);
    assert_eq!(t.stringvar_count(), 1);
    assert_eq!(t.vector_count(), 1);
}

#[test]
fn strings_are_replaced() {
    let mut t = SymbolTable::new();
    let id = t.add_stringvar("s1", b"Hello").ok().unwrap().unwrap();
    assert_eq!(t.string(id).unwrap().get(), b"Hello");
    assert!(t.set_string(id, b"What a"));
    assert_eq!(t.string(id).unwrap().get(), b"What a");
    assert!(!t.set_string(3, b"x"));
    let mut s = StringValue::new(b"ab");
    s.set(b"\xff\x00c");
    assert_eq!(s.get(), b"\xff\x00c");
}

#[test]
fn constants_are_registered() {
    let mut t = SymbolTable::new();
    let mut fresh = SymbolTable::new();
    assert!(fresh.add_constants());
    assert!(!fresh.add_constants());
    assert!(t.add_constants());
    assert!(t.is_constant_node("pi"));
    assert!(t.is_constant_node("epsilon"));
    assert!(t.is_constant_node("inf"));
    assert!(!t.add_pi());
    assert_eq!(f64::from_bits(PI_BITS), std::f64::consts::PI);
    assert_eq!(f64::from_bits(EPSILON_BITS), 0.0000000001);
    assert_eq!(f64::from_bits(INFINITY_BITS), f64::INFINITY);
    assert_eq!(t.variable_count(), 0);
}

#[test]
fn function_names_share_the_namespace() {
    let mut t = SymbolTable::new();
    assert_eq!(t.add_function("add", 2).ok().unwrap(), true);
    assert_eq!(t.add_variable("add", 0).ok().unwrap(), None);
    assert!(!t.is_constant_node("add"));
}

#[test]
fn clone_is_independent() {
    let mut t = SymbolTable::new();
    let id = t.add_variable("x", 1f64.to_bits()).ok().unwrap().unwrap();
    let mut c = t.duplicate();
    let mut d = t.clone();
    assert!(d.set_value(id, 3f64.to_bits()));
    assert_eq!(f64::from_bits(t.value(id).unwrap()), 1.0);
    assert!(c.set_value(id, 9f64.to_bits()));
    assert_eq!(f64::from_bits(t.value(id).unwrap()), 1.0);
    assert_eq!(f64::from_bits(c.value(id).unwrap()), 9.0);
}

#[test]
fn resolved_names_get_ids_in_order() {
    let mut e = Expression::new("a*x^2 + b*x + c", SymbolTable::new());
    let names = vec!["a".to_string(), "x".to_string(), "b".to_string(), "c".to_string()];
    let out = e.declare_resolved(names);
    assert_eq!(
        out,
        vec![("a".to_string(), 0), ("x".to_string(), 1), ("b".to_string(), 2), ("c".to_string(), 3)]
    );
    assert_eq!(e.symbols().variable_count(), 4);
    assert_eq!(e.symbols().value(3), Some(0));
    assert_eq!(e.string(), "a*x^2 + b*x + c");
    assert!(e.set_value(1, 5f64.to_bits()));
    assert_eq!(e.symbols().get_var_id("x"), Some(1));
}

#[test]
fn parse_error_records() {
    let e = ParseError::from_record(
        true, 1, "ERR".to_string(), ")".to_string(), "unbalanced".to_string(),
        "(1+2".to_string(), 1, 4,
    )
    .unwrap();
    assert_eq!(e.kind, ParseErrorKind::Syntax);
    assert_eq!(e.message, "unbalanced");
    assert_eq!((e.line_no, e.column_no), (1, 4));
    assert!(ParseError::from_record(true, 3, String::new(), String::new(), String::new(), String::new(), 0, 0).is_none());
    assert_eq!(ParseErrorKind::from_code(8), Some(ParseErrorKind::Parser));
    assert_eq!(ParseErrorKind::from_code(-1), None);
}

#[test]
fn clears_drop_one_kind() {
    let mut t = SymbolTable::new();
    t.add_variable("a", 0).ok().unwrap();
    t.add_stringvar("s", b"x").ok().unwrap();
    t.add_variable("b", 0).ok().unwrap();
    t.add_vector("v", &[1]).ok().unwrap();
    assert_eq!(t.get_variable_names(), vec!["a".to_string(), "b".to_string()]);
    assert_eq!(t.get_stringvar_names(), vec!["s".to_string()]);
    assert_eq!(t.get_vector_names(), vec!["v".to_string()]);
    t.clear_variables();
    assert_eq!(t.variable_count(), 0);
    assert!(!t.symbol_exists("a"));
    assert!(t.symbol_exists("s"));
    assert_eq!(t.add_variable("a", 0).ok().unwrap(), Some(0));
    t.clear_strings();
    assert_eq!(t.stringvar_count(), 0);
    assert_eq!(t.get_string_id("s"), None);
    t.clear_vectors();
    assert_eq!(t.vector_count(), 0);
    assert_eq!(t.get_vector_names(), Vec::<String>::new());
    assert_eq!(t.entry_count(), 1);
}

#[test]
fn vectors_are_mutable_in_place() {
    let mut t = SymbolTable::new();
    let id = t.add_vector("v", &[1, 2, 3]).ok().unwrap().unwrap();
    assert!(t.set_vector(id, 1, 9));
    assert_eq!(t.vector(id).unwrap(), &[1, 9, 3]);
    assert!(!t.set_vector(id, 3, 0));
    assert!(!t.set_vector(1, 0, 0));
    assert!(!t.is_constant_string("v"));
}

#[test]
fn expression_clone_is_independent() {
    let mut t = SymbolTable::new();
    t.add_variable("x", 1).ok().unwrap();
    let e = Expression::new("x + 1", t);
    let mut c = e.clone();
    assert!(c.set_value(0, 7));
    assert_eq!(e.symbols().value(0), Some(1));
    assert_eq!(c.symbols().value(0), Some(7));
    assert_eq!(c.string(), "x + 1");
}

#[test]
fn names_ignore_case() {
    let mut t = SymbolTable::new();
    assert_eq!(t.add_variable("Abc", 0).ok().unwrap(), Some(0));
    assert_eq!(t.add_variable("aBC", 0).ok().unwrap(), None);
    assert_eq!(t.add_stringvar("ABC", b"").ok().unwrap(), None);
    assert!(t.symbol_exists("abc"));
    assert_eq!(t.get_var_id("ABC"), Some(0));
    assert_eq!(t.get_variable_names(), vec!["Abc".to_string()]);
    assert!(t.add_constant("PI", 0).ok().unwrap());
    assert!(!t.add_pi());
}

#[test]
fn nul_in_text_is_located() {
    assert!(ParseError::nul_in_text("a + b").is_none());
    let e = ParseError::nul_in_text("a +\nb\0c").unwrap();
    assert_eq!(e.kind, ParseErrorKind::Lexer);
    assert_eq!((e.line_no, e.column_no), (2, 2));
    assert!(!e.message.is_empty());
    let e = ParseError::nul_in_text("\0").unwrap();
    assert_eq!((e.line_no, e.column_no), (1, 1));
}
