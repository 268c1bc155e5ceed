use transit::scope::Scope;

#[test]
fn get_variable_non_existant() {
    let s = Scope::new();
    assert_eq!(s.get_variable(String::new()), None);
}

#[test]
fn get_variable_single_depth_single_var() {
    // Start of code (to be 'parsed' by this test).
    let a: i32 = 0;
    assert_eq!(a, 0);
    // End of code

    let mut s = Scope::new();
    let original = String::from("original");
    let expected = String::from("s0v0");
    s.add_variable(original.clone());
    assert_eq!(s.get_variable(original), Some(expected));
}

#[test]
fn get_variable_single_depth_multiple_var() {
    let mut s = Scope::new();
    let original0 = String::from("original0");
    let expected0 = String::from("s0v0");
    let original1 = String::from("original1");
    let expected1 = String::from("s0v1");
    let original2 = String::from("original2");
    let expected2 = String::from("s0v2");
    s.add_variable(original0.clone());
    s.add_variable(original1.clone());
    s.add_variable(original2.clone());
    assert_eq!(s.get_variable(original0), Some(expected0));
    assert_eq!(s.get_variable(original2), Some(expected2));
    assert_eq!(s.get_variable(original1), Some(expected1));
}

#[test]
fn shadowing_deeper_alias_wins_and_reverts() {
    let mut s = Scope::new();
    s.add_variable(String::from("a"));
    assert_eq!(s.get_variable(String::from("a")), Some(String::from("s0v0")));
    s.increase_depth();
    s.add_variable(String::from("a"));
    assert_eq!(s.get_variable(String::from("a")), Some(String::from("s1v0")));
    s.decrease_depth();
    assert_eq!(s.get_variable(String::from("a")), Some(String::from("s0v0")));
}

#[test]
fn negative_depth_is_valid() {
    let mut s = Scope::new();
    s.decrease_depth();
    s.add_variable(String::from("x"));
    assert_eq!(s.get_variable(String::from("x")), Some(String::from("s-1v0")));
    // An alias from a depth below the start stays visible after climbing out.
    s.increase_depth();
    assert_eq!(s.get_variable(String::from("x")), Some(String::from("s-1v0")));
}

#[test]
fn outer_alias_visible_deeper_until_shadowed() {
    let mut s = Scope::new();
    s.add_variable(String::from("v"));
    s.increase_depth();
    s.increase_depth();
    assert_eq!(s.get_variable(String::from("v")), Some(String::from("s0v0")));
    assert_eq!(s.get_variable(String::from("w")), None);
}

#[test]
fn readding_same_name_overwrites_alias() {
    let mut s = Scope::new();
    s.add_variable(String::from("n"));
    assert_eq!(s.get_variable(String::from("n")), Some(String::from("s0v0")));
    s.add_variable(String::from("n"));
    assert_eq!(s.get_variable(String::from("n")), Some(String::from("s0v1")));
}
