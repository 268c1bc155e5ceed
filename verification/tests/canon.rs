use transit::keys::{format_key, format_key_rust, which_key_format, KeyFormat};
use transit::tokenize::{is_rust_punctuation_char, tokenize_rust_variables};

#[test]
fn tokenize_splits_identifiers_and_punctuation() {
    let toks = tokenize_rust_variables(String::from("let x = 1;"));
    let expected = vec!["let", " ", "x", " ", "=", " ", "1", ";"];
    let got: Vec<&str> = toks.iter().map(|t| t.as_str()).collect();
    assert_eq!(got, expected);
}

#[test]
fn tokenize_concatenation_reproduces_input() {
    let inputs = vec![
        String::new(),
        String::from("fn main() { let a = \"he said \\\"hi\\\" loudly\"; }"),
        String::from("  spaced   out  "),
        String::from("\"unterminated string literal"),
        String::from("a-b->c::d"),
    ];
    for input in inputs {
        let toks = tokenize_rust_variables(input.clone());
        let rebuilt: String = toks.concat();
        assert_eq!(rebuilt, input);
    }
}

#[test]
fn tokenize_keeps_string_literal_whole() {
    let toks = tokenize_rust_variables(String::from("x = \"a b\";"));
    let got: Vec<&str> = toks.iter().map(|t| t.as_str()).collect();
    assert_eq!(got, vec!["x", " ", "=", " ", "\"a b\"", ";"]);
}

#[test]
fn punctuation_set_is_exact() {
    for c in "{}()[]<>.,;:!# -".chars() {
        assert!(is_rust_punctuation_char(c));
    }
    for c in "ab1_\"+*/='\\".chars() {
        assert!(!is_rust_punctuation_char(c));
    }
}

#[test]
fn format_key_collapses_and_trims() {
    // A run of two or more whitespace characters disappears entirely; a
    // single one stays; the ends are trimmed.
    assert_eq!(format_key(String::from("a  b")), "ab");
    assert_eq!(format_key(String::from(" a b ")), "a b");
    assert_eq!(format_key(String::from("  let  x = 1;  ")), "letx = 1;");
    assert_eq!(format_key(String::from("   \t\n ")), "");
    assert_eq!(format_key(String::new()), "");
}

#[test]
fn format_key_is_idempotent_on_samples() {
    let samples = vec![
        String::from("  let  x = 1;  "),
        String::from("a  b c   d"),
        String::from("\n\nfn f() {}\n"),
        String::from(" "),
    ];
    for s in samples {
        let once = format_key(s);
        let twice = format_key(once.clone());
        assert_eq!(twice, once);
    }
}

#[test]
fn format_key_rust_renames_bound_variables() {
    let old = format_key_rust(String::from("let x = 1; return x + 1;"));
    let new = format_key_rust(String::from("let y = 1; return y + 1;"));
    assert_eq!(old, "let s0v0 = 1; return s0v0 + 1;");
    assert_eq!(old, new);
}

#[test]
fn format_key_rust_respects_nesting_depth() {
    let a = format_key_rust(String::from("{ let a = 2; } let b = 3;"));
    assert_eq!(a, "{ let s1v0 = 2; } let s0v0 = 3;");
}

#[test]
fn format_key_rust_without_binding_is_generic() {
    // With no binding keyword nothing is renamed: the result is exactly the
    // whitespace-normalized text.
    let s = String::from("  return  a + b;  ");
    assert_eq!(format_key_rust(s.clone()), format_key(s));
}

#[test]
fn format_key_rust_distinct_content_differs() {
    let a = format_key_rust(String::from("let x = 1;"));
    let b = format_key_rust(String::from("let x = 2;"));
    assert_ne!(a, b);
}

#[test]
fn key_format_chosen_by_extension() {
    let rs_a = String::from("src/a.rs");
    let rs_b = String::from("src/b.rs");
    let txt = String::from("notes.txt");
    let py = String::from("tool.py");
    let hidden = String::from(".gitignore");
    assert_eq!(which_key_format(&rs_a, &rs_b), KeyFormat::Rust);
    assert_eq!(which_key_format(&rs_a, &txt), KeyFormat::Generic);
    assert_eq!(which_key_format(&py, &py), KeyFormat::Generic);
    assert_eq!(which_key_format(&hidden, &hidden), KeyFormat::Generic);
    assert_eq!(which_key_format(&txt, &hidden), KeyFormat::Generic);
}
