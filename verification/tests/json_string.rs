use json_in_type::string::{json_escaped_char, write_json_nosimd, write_json_simd};
use json_in_type::JSONValue;

/// The string literal for `s`, escaped byte by byte.
fn scalar(s: &str) -> String {
    let mut buffer: Vec<u8> = vec![b'"'];
    write_json_nosimd(s.as_bytes(), &mut buffer).unwrap();
    buffer.push(b'"');
    String::from_utf8(buffer).unwrap()
}

/// The string literal for `s`, escaped block by block.
fn blocks(s: &str) -> String {
    let mut buffer: Vec<u8> = vec![b'"'];
    write_json_simd(s.as_bytes(), &mut buffer).unwrap();
    buffer.push(b'"');
    String::from_utf8(buffer).unwrap()
}

#[test]
fn json_string_test_chars() {
    assert_eq!("\"x\"", 'x'.to_json_string());
    assert_eq!("\"\\n\"", '\n'.to_json_string());
    assert_eq!("\"\\\\\"", '\\'.to_json_string());
    assert_eq!("\"\\u0000\"", '\0'.to_json_string());
    assert_eq!("\"❤\"", '❤'.to_json_string());
}

#[test]
fn json_string_test_simple_string() {
    assert_eq!(r#""""#, "".to_json_string());
    assert_eq!(r#""Hello, world!""#, "Hello, world!".to_json_string());
    assert_eq!(r#""\t\t\n""#, "\t\t\n".to_json_string());
    assert_eq!(r#""""#, scalar(""));
    assert_eq!(r#""Hello, world!""#, blocks("Hello, world!"));
    assert_eq!(r#""\t\t\n""#, scalar("\t\t\n"));
}

#[test]
fn json_string_test_complex_string() {
    assert_eq!(
        r#""I ❤️ \"pépé\" \n backslash: \\!!!\n""#,
        "I ❤️ \"pépé\" \n backslash: \\!!!\n".to_json_string()
    );
    assert_eq!(
        r#""I ❤️ \"pépé\" \n backslash: \\!!!\n""#,
        scalar("I ❤️ \"pépé\" \n backslash: \\!!!\n")
    );
}

#[test]
fn json_string_short_strings_of_increasing_length() {
    for i in 0..128 {
        let xs = String::from("x").repeat(i);
        assert_eq!(format!("\"{}\"", xs), xs.to_json_string());

        let newlines = String::from("\n").repeat(i);
        assert_eq!(format!("\"{}\"", newlines.replace('\n', "\\n")), newlines.to_json_string());
        assert_eq!(scalar(&newlines), blocks(&newlines));
    }
}

#[test]
fn json_string_long_ascii_string() {
    let s = String::from("x").repeat(7919);
    assert_eq!(format!("\"{}\"", s), s.to_json_string());
}

#[test]
fn json_string_long_nonascii_string() {
    let s = String::from("\u{2a6a5}").repeat(7919);
    assert_eq!(format!("\"{}\"", s), s.to_json_string());
}

#[test]
fn json_string_long_mixed_string() {
    let source = String::from("0123456789abcdef0123456789abcdef\0").repeat(7919);
    let target = source.replace('\0', "\\u0000");
    assert_eq!(format!("\"{}\"", target), source.to_json_string());
    assert_eq!(format!("\"{}\"", target), scalar(&source));
}

#[test]
fn json_string_many_backslashes() {
    let n = 7919;
    let s = String::from("\\").repeat(n);
    assert_eq!(format!("\"{}\"", s.repeat(2)), s.to_json_string());
}

#[test]
fn every_control_character_is_escaped() {
    let expected = [
        "\\u0000", "\\u0001", "\\u0002", "\\u0003", "\\u0004", "\\u0005", "\\u0006", "\\u0007",
        "\\u0008", "\\t", "\\n", "\\u000b", "\\u000c", "\\r", "\\u000e", "\\u000f", "\\u0010",
        "\\u0011", "\\u0012", "\\u0013", "\\u0014", "\\u0015", "\\u0016", "\\u0017", "\\u0018",
        "\\u0019", "\\u001a", "\\u001b", "\\u001c", "\\u001d", "\\u001e", "\\u001f",
    ];
    for c in 0u8..0x20 {
        let escape = json_escaped_char(c).unwrap();
        assert_eq!(c, escape.0);
        let mut buffer: Vec<u8> = Vec::new();
        escape.write(&mut buffer).unwrap();
        assert_eq!(expected[c as usize].as_bytes().to_vec(), buffer);
        let text = String::from_utf8(vec![c]).unwrap();
        assert_eq!(format!("\"{}\"", expected[c as usize]), text.to_json_string());
    }
}

#[test]
fn only_some_bytes_are_escaped() {
    for c in 0u8..=255 {
        let escaped = c < 0x20 || c == b'"' || c == b'\\' || c == 0x7f;
        assert_eq!(escaped, json_escaped_char(c).is_some());
    }
    assert_eq!("\"\\\"\"", '"'.to_json_string());
    assert_eq!("\"\\u007f\"", '\x7f'.to_json_string());
    assert_eq!("\"/\"", '/'.to_json_string());
}

#[test]
fn characters_beyond_ascii_are_copied() {
    assert_eq!("\"\u{10a}\"", '\u{10a}'.to_json_string());
    assert_eq!("\"\u{122}\"", '\u{122}'.to_json_string());
    assert_eq!("\"\u{2a6a5}\"", '\u{2a6a5}'.to_json_string());
}

#[test]
fn an_escape_at_every_place_of_a_block() {
    for len in 0..48 {
        for at in 0..len {
            let mut source = String::from("é").repeat(len);
            let place = source.char_indices().nth(at).unwrap().0;
            source.replace_range(place..place + 2, "\"");
            let target = source.replace('"', "\\\"");
            assert_eq!(format!("\"{}\"", target), source.to_json_string());
            assert_eq!(scalar(&source), blocks(&source));
        }
    }
}

#[test]
fn every_byte_at_every_place_of_a_block() {
    for c in 0u8..0x80 {
        for at in 0..40 {
            let mut bytes = vec![b'a'; 40];
            bytes[at] = c;
            let source = String::from_utf8(bytes).unwrap();
            let expected: String = serde_json::to_string(&source).unwrap();
            if c != 0x7f && c != 0x08 && c != 0x0c {
                assert_eq!(expected, blocks(&source));
            }
            assert_eq!(scalar(&source), blocks(&source));
            let read: String = serde_json::from_str(&blocks(&source)).unwrap();
            assert_eq!(source, read);
        }
    }
}
