use catchr_core::escape_name;

#[test]
fn escapes_strings() {
    assert_eq!("hello_world", &escape_name("Hello World!"));
    assert_eq!(
        "my_struct_foo_1_should_equal_2",
        &escape_name("my_struct.foo(1) should equal 2")
    );
    assert_eq!(
        "here_we_go",
        &escape_name("Here!@#%$#^@#We!$!#%$^&^*Go!!!!!")
    );
    assert_eq!("empty", &escape_name(""))
}

#[test]
fn escaped_names_escape_to_themselves() {
    for s in ["hello_world", "a", "x1_y2_z3", "empty", "when_9"] {
        assert_eq!(escape_name(s), s);
    }
}

#[test]
fn escape_is_deterministic() {
    let s = "Some -- Name?? 42";
    assert_eq!(escape_name(s), escape_name(s));
    assert_eq!(escape_name(s), "some_name_42");
}

#[test]
fn escape_never_doubles_or_trails_separators() {
    for s in ["__a__b__", "?!", "a  b", "trailing ", "  leading", "ÄÖ x"] {
        let e = escape_name(s);
        assert!(!e.contains("__"), "{:?} -> {:?}", s, e);
        assert!(!e.ends_with('_'), "{:?} -> {:?}", s, e);
    }
    assert_eq!(escape_name("__a__b__"), "_a_b");
    assert_eq!(escape_name("?!"), "");
    assert_eq!(escape_name("ÄÖ x"), "_x");
}

#[test]
fn escape_lowercases_ascii_letters_only() {
    assert_eq!(escape_name("ABC xyz 09"), "abc_xyz_09");
}
