use heap_image::render::{push_escaped, Bytes};

fn reference(bytes: &[u8]) -> String {
    let mut text = String::new();
    for &b in bytes {
        match b {
            b'\\' => text.push_str("\\\\"),
            b' '..=b'~' => text.push(b as char),
            b'\0' => text.push_str("\\0"),
            b'\t' => text.push_str("\\t"),
            b'\n' => text.push_str("\\n"),
            b => text.push_str(&format!("\\x{:02x}", b)),
        }
    }
    text
}

#[test]
fn printable_bytes_stand_for_themselves() {
    assert_eq!(Bytes(b"hello, world ~!").render(), "hello, world ~!");
    assert_eq!(Bytes(b"").render(), "");
    assert_eq!(Bytes(b" ").render(), " ");
}

#[test]
fn backslash_is_doubled() {
    assert_eq!(Bytes(b"a\\b").render(), "a\\\\b");
    assert_eq!(Bytes(b"\\\\").render(), "\\\\\\\\");
}

#[test]
fn control_bytes_are_escaped() {
    assert_eq!(Bytes(b"\0\t\n").render(), "\\0\\t\\n");
    assert_eq!(Bytes(&[1, 8, 11, 12, 13, 31, 127]).render(), "\\x01\\x08\\x0b\\x0c\\x0d\\x1f\\x7f");
    assert_eq!(Bytes(&[0x80, 0xab, 0xff]).render(), "\\x80\\xab\\xff");
}

#[test]
fn every_byte_is_rendered_as_the_reference_does() {
    for b in 0..=255u8 {
        assert_eq!(Bytes(&[b]).render(), reference(&[b]));
        let mut text = String::from("<");
        push_escaped(&mut text, b);
        assert_eq!(text, format!("<{}", reference(&[b])));
    }
    let all: Vec<u8> = (0..=255u8).collect();
    assert_eq!(Bytes(&all).render(), reference(&all));
}

#[test]
fn quoted_text_stands_between_double_quotes() {
    assert_eq!(Bytes(b"say \"hi\"\n").render_quoted(), "\"say \"hi\"\\n\"");
    assert_eq!(Bytes(b"").render_quoted(), "\"\"");
}
