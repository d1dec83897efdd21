use ext::module_spec::{parse_i64, parse_module_name, split_algebra, ModuleNameError};

#[test]
fn integers_in_decimal() {
    assert_eq!(parse_i64("0"), Some(0));
    assert_eq!(parse_i64("42"), Some(42));
    assert_eq!(parse_i64("+7"), Some(7));
    assert_eq!(parse_i64("-13"), Some(-13));
    assert_eq!(parse_i64("-0"), Some(0));
    assert_eq!(parse_i64("9223372036854775807"), Some(i64::MAX));
    assert_eq!(parse_i64("-9223372036854775808"), Some(i64::MIN));
}

#[test]
fn integers_rejected() {
    assert_eq!(parse_i64(""), None);
    assert_eq!(parse_i64("-"), None);
    assert_eq!(parse_i64("+"), None);
    assert_eq!(parse_i64("1a"), None);
    assert_eq!(parse_i64(" 1"), None);
    assert_eq!(parse_i64("--1"), None);
    assert_eq!(parse_i64("9223372036854775808"), None);
    assert_eq!(parse_i64("-9223372036854775809"), None);
    assert_eq!(parse_i64("123456789012345678901234567890"), None);
    assert_eq!(parse_i64("123456789012345678901234567890x"), None);
}

#[test]
fn integers_agree_with_std() {
    for s in ["5", "-5", "+5", "", "x", "18446744073709551615", "-1x", "007", "+-3"] {
        assert_eq!(parse_i64(s), s.parse::<i64>().ok(), "{s}");
    }
}

#[test]
fn module_names() {
    let m = parse_module_name("S_2").unwrap();
    assert_eq!(m.file, "S_2");
    assert_eq!(m.shift, None);
    let m = parse_module_name("C2[3]").unwrap();
    assert_eq!(m.file, "C2");
    assert_eq!(m.shift, Some(3));
    let m = parse_module_name("Joker[-2][ignored").unwrap();
    assert_eq!(m.file, "Joker");
    assert_eq!(m.shift, Some(-2));
}

#[test]
fn module_name_errors() {
    assert_eq!(parse_module_name("S_2[3").err(), Some(ModuleNameError::UnterminatedShift));
    assert_eq!(parse_module_name("S_2[").err(), Some(ModuleNameError::UnterminatedShift));
    assert_eq!(parse_module_name("S_2[x]").err(), Some(ModuleNameError::InvalidShift));
    assert_eq!(parse_module_name("S_2[]").err(), Some(ModuleNameError::InvalidShift));
}

#[test]
fn algebra_suffix() {
    assert_eq!(split_algebra("S_2"), ("S_2".to_string(), None));
    assert_eq!(split_algebra("S_2@milnor"), ("S_2".to_string(), Some("milnor".to_string())));
    assert_eq!(split_algebra("C2[1]@adem@x"), ("C2[1]".to_string(), Some("adem".to_string())));
    assert_eq!(split_algebra("@adem"), (String::new(), Some("adem".to_string())));
}
