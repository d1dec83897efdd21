use ext::utils::{push_decimal, push_signed_decimal, sort_ascending, unicode_num};

#[test]
fn unicode_num_characters() {
    let chars: String = (0..12).map(unicode_num).collect();
    assert_eq!(chars, " ·:∴⁘⁙⠿⡿⣿9**");
    assert_eq!(unicode_num(1000), '*');
}

#[test]
fn decimal_forms() {
    let mut s = String::from("x=");
    push_decimal(&mut s, 0);
    push_decimal(&mut s, 1234567890123);
    assert_eq!(s, "x=01234567890123");
    let mut s = String::new();
    push_signed_decimal(&mut s, -42);
    push_signed_decimal(&mut s, 7);
    push_signed_decimal(&mut s, i32::MIN);
    assert_eq!(s, "-427-2147483648");
}

#[test]
fn sorting_orders_and_keeps_entries() {
    assert_eq!(sort_ascending(vec![3, 1, 2, 1]), vec![1, 1, 2, 3]);
    assert_eq!(sort_ascending(vec![]), Vec::<u32>::new());
}
