use protohackers::mob::{is_boguscoin, rewrite_line, BOGUSCOIN};

#[test]
fn addresses_are_rewritten() {
    assert_eq!(
        rewrite_line(
            b"Hi alice, please send payment to 7iKDZEwPZSqIvDnHvVN2r0hUWXD5rHX\n",
            BOGUSCOIN
        ),
        "Hi alice, please send payment to 7YWHMfk9JZe0LM0g1ZauHuiSxhI"
    );
}

#[test]
fn spacing_is_kept() {
    assert_eq!(rewrite_line(b"  a \t b\n", BOGUSCOIN), "  a \t b");
    assert_eq!(rewrite_line(b"\n", BOGUSCOIN), "");
    assert_eq!(
        rewrite_line(b" 7iKDZEwPZSqIvDnHvVN2r0hUWXD5rHX  x\n", BOGUSCOIN),
        " 7YWHMfk9JZe0LM0g1ZauHuiSxhI  x"
    );
    assert_eq!(
        rewrite_line(b"pay\t7iKDZEwPZSqIvDnHvVN2r0hUWXD5rHX\n", BOGUSCOIN),
        "pay\t7iKDZEwPZSqIvDnHvVN2r0hUWXD5rHX"
    );
}

#[test]
fn what_is_an_address() {
    let w = |s: &str| s.chars().collect::<Vec<char>>();
    assert!(is_boguscoin(&w("7F1u3wSD5RbOHQmupo9nx4TnhQ")));
    assert!(is_boguscoin(&w("7LOrwbDlS8NujgjddyogWgIM93MV5N2VR")));
    assert!(!is_boguscoin(&w("7F1u3wSD5RbOHQmupo9nx4Tnh")));
    assert!(!is_boguscoin(&w("8F1u3wSD5RbOHQmupo9nx4TnhQ")));
    assert!(!is_boguscoin(&w("7F1u3wSD5RbOHQmupo9nx4TnhQ-")));
    assert!(!is_boguscoin(&w("7adfsdfasdfsdfsdffffffffffffffffffffffffffffff")));
    let accented = format!("7{}", "é".repeat(25));
    assert!(is_boguscoin(&w(&accented)));
    assert!(!is_boguscoin(&w(&format!("7{}", "é".repeat(35)))));
}

#[test]
fn an_address_in_its_own_words_stays_the_same() {
    let coin = "7YWHMfk9JZe0LM0g1ZauHuiSxhI";
    let line = format!("send to {coin}\n");
    assert_eq!(rewrite_line(line.as_bytes(), coin), format!("send to {coin}"));
}
