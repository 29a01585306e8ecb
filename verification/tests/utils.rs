use json_in_type::utils::FormatterWriter;
use json_in_type::{JSONValue, Sink, SinkError, JSON};

#[test]
fn format_unicode() {
    let output = JSON("ğŸ¤¨ğŸ¤¨\nğŸ˜®ğŸ˜®\nğŸ¤¨ğŸ¤¨\nğŸ˜®ğŸ˜®OMG").to_string();
    assert_eq!(output, r#""ğŸ¤¨ğŸ¤¨\nğŸ˜®ğŸ˜®\nğŸ¤¨ğŸ¤¨\nğŸ˜®ğŸ˜®OMG""#);
}

#[test]
fn formatter_writer_takes_text() {
    let mut writer = FormatterWriter::new();
    assert_eq!(Ok(6), writer.write("héllo".as_bytes()));
    assert_eq!(Ok(()), writer.flush());
    assert_eq!("héllo", writer.0);
    assert_eq!(Ok(()), writer.write_all(b"!"));
    assert_eq!("héllo!", writer.0);
}

#[test]
fn formatter_writer_refuses_invalid_utf8() {
    let mut writer = FormatterWriter::new();
    assert_eq!(Ok(()), writer.write_all(b"ab"));
    assert_eq!(Err(SinkError::InvalidData), writer.write(&[0xff, 0x41]));
    assert_eq!(Err(SinkError::InvalidData), writer.write_all(&[0xe2, 0x9d]));
    assert_eq!("ab", writer.0);
}

#[test]
fn display_of_escaped_text_spanning_blocks() {
    let text = "🤨🤨\n😮😮\n🤨🤨\n😮😮OMG";
    let expected = r#""🤨🤨\n😮😮\n🤨🤨\n😮😮OMG""#;
    assert_eq!(expected, JSON(text).to_string());
    assert_eq!(expected, text.to_json_string());
    let mut writer = FormatterWriter::new();
    assert_eq!(Ok(()), JSON(text).fmt(&mut writer));
    assert_eq!(expected, writer.0);
}

#[test]
fn json_into_buffer() {
    let buffer: Vec<u8> = JSON(vec![(), (), ()]).into();
    assert_eq!(b"[null,null,null]".to_vec(), buffer);
    assert_eq!("[null,null,null]", JSON(vec![(), (), ()]).to_string());
}
