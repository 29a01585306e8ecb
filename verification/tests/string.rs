use json_in_type::JSONValue;

#[test]
fn string_test_chars() {
    assert_eq!("\"x\"", 'x'.to_json_string());
    assert_eq!("\"\\n\"", '\n'.to_json_string());
    assert_eq!("\"\\\\\"", '\\'.to_json_string());
    assert_eq!("\"\\u0000\"", '\0'.to_json_string());
    assert_eq!("\"❤\"", '❤'.to_json_string());
}

#[test]
fn string_test_simple_string() {
    assert_eq!(r#""""#, "".to_json_string());
    assert_eq!(r#""Hello, world!""#, "Hello, world!".to_json_string());
    assert_eq!(r#""\t\t\n""#, "\t\t\n".to_json_string());
}

#[test]
fn test_string_with_control_chars() {
    assert_eq!(
        r#""0123456789\u001fabcde""#,
        "0123456789\x1Fabcde".to_json_string()
    );
    assert_eq!(
        r#""0123456789\u001eabcde""#,
        "0123456789\x1Eabcde".to_json_string()
    );
    assert_eq!(
        r#""0123456789\u007fabcde""#,
        "0123456789\x7Fabcde".to_json_string()
    );
}

#[test]
fn string_test_complex_string() {
    assert_eq!(
        r#""I ❤️ \"pépé\" \n backslash: \\!!!\n""#,
        "I ❤️ \"pépé\" \n backslash: \\!!!\n".to_json_string()
    );
}

#[test]
fn string_short_strings_of_increasing_length() {
    for i in 0..128 {
        let xs = String::from("x").repeat(i);
        assert_eq!(format!("\"{}\"", xs), xs.to_json_string());

        let newlines = String::from("\n").repeat(i);
        assert_eq!(
            format!("\"{}\"", newlines.replace('\n', "\\n")),
            newlines.to_json_string()
        );
    }
}

#[test]
fn string_long_ascii_string() {
    let s = String::from("x").repeat(7919);
    assert_eq!(format!("\"{}\"", s), s.to_json_string());
}

#[test]
fn string_long_nonascii_string() {
    let s = String::from("\u{2a6a5}").repeat(7919);
    assert_eq!(format!("\"{}\"", s), s.to_json_string());
}

#[test]
fn string_long_mixed_string() {
    let source = String::from("0123456789abcdef0123456789abcdef\0").repeat(7919);
    let target = source.replace('\0', "\\u0000");
    assert_eq!(format!("\"{}\"", target), source.to_json_string());
}

#[test]
fn string_many_backslashes() {
    let n = 7919;
    let s = String::from("\\").repeat(n);
    assert_eq!(format!("\"{}\"", s.repeat(2)), s.to_json_string());
}
