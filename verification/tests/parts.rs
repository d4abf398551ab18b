use attribute_escape::{
    get_width_assume_valid, is_alphanumeric, write_hex_to_vec, write_html_entity_to_string,
    write_html_entity_to_vec, Chunk, Reference, Scanner,
};

#[test]
fn width_of_ascii_is_one() {
    assert_eq!(get_width_assume_valid(0x00), 1);
    assert_eq!(get_width_assume_valid(b'a'), 1);
    assert_eq!(get_width_assume_valid(0x7F), 1);
}

#[test]
fn width_of_multi_byte_leading_bytes() {
    assert_eq!(get_width_assume_valid(0xC2), 2);
    assert_eq!(get_width_assume_valid(0xDF), 2);
    assert_eq!(get_width_assume_valid(0xE0), 3);
    assert_eq!(get_width_assume_valid(0xEF), 3);
    assert_eq!(get_width_assume_valid(0xF0), 4);
    assert_eq!(get_width_assume_valid(0xF4), 4);
}

#[test]
fn width_agrees_with_the_length_of_each_character() {
    for c in ['a', '\u{80}', '\u{e9}', '\u{7ff}', '\u{800}', '\u{ffff}', '\u{10000}', '\u{10ffff}'] {
        let mut buffer = [0u8; 4];
        let encoded = c.encode_utf8(&mut buffer);
        assert_eq!(get_width_assume_valid(encoded.as_bytes()[0]), c.len_utf8());
    }
}

#[test]
fn alphanumeric_bytes() {
    for byte in 0u8..128 {
        assert_eq!(is_alphanumeric(byte), byte.is_ascii_alphanumeric());
    }
}

#[test]
fn alphanumeric_range_ends() {
    assert!(is_alphanumeric(b'0'));
    assert!(is_alphanumeric(b'9'));
    assert!(is_alphanumeric(b'A'));
    assert!(is_alphanumeric(b'Z'));
    assert!(is_alphanumeric(b'a'));
    assert!(is_alphanumeric(b'z'));
    assert!(!is_alphanumeric(b'/'));
    assert!(!is_alphanumeric(b':'));
    assert!(!is_alphanumeric(b'@'));
    assert!(!is_alphanumeric(b'['));
    assert!(!is_alphanumeric(b'`'));
    assert!(!is_alphanumeric(b'{'));
}

#[test]
fn hex_reference_in_a_vec() {
    let mut output = vec![b'>'];
    write_hex_to_vec(0x25, &mut output);
    assert_eq!(output, b">&#x25;");
    write_hex_to_vec(0x0A, &mut output);
    assert_eq!(output, b">&#x25;&#x0A;");
    write_hex_to_vec(0xFF, &mut output);
    assert_eq!(output, b">&#x25;&#x0A;&#xFF;");
    write_hex_to_vec(0x00, &mut output);
    assert_eq!(output, b">&#x25;&#x0A;&#xFF;&#x00;");
}

#[test]
fn entity_in_a_vec() {
    let mut output = Vec::new();
    write_html_entity_to_vec(b'&', &mut output);
    write_html_entity_to_vec(b'<', &mut output);
    write_html_entity_to_vec(b'>', &mut output);
    write_html_entity_to_vec(b'"', &mut output);
    write_html_entity_to_vec(b' ', &mut output);
    write_html_entity_to_vec(b'\'', &mut output);
    assert_eq!(output, b"&amp;&lt;&gt;&quot;&#x20;&#x27;");
}

#[test]
fn entity_in_a_string() {
    let mut output = String::from("\u{e9}");
    write_html_entity_to_string(b'&', &mut output);
    write_html_entity_to_string(b'<', &mut output);
    write_html_entity_to_string(b'>', &mut output);
    write_html_entity_to_string(b'"', &mut output);
    write_html_entity_to_string(b' ', &mut output);
    write_html_entity_to_string(b'\'', &mut output);
    write_html_entity_to_string(0xAB, &mut output);
    assert_eq!(output, "\u{e9}&amp;&lt;&gt;&quot;&#x20;&#x27;&#xAB;");
}

#[test]
fn the_entity_writers_agree_on_every_byte() {
    for byte in 0u8..=255 {
        let mut bytes = Vec::new();
        write_html_entity_to_vec(byte, &mut bytes);
        let mut string = String::new();
        write_html_entity_to_string(byte, &mut string);
        let reference = Reference::of(byte);
        assert_eq!(bytes, string.as_bytes());
        assert_eq!(reference.as_bytes(), string.as_bytes());
    }
}

#[test]
fn rendered_references() {
    assert_eq!(Reference::of(b'&').as_bytes(), b"&amp;");
    assert_eq!(Reference::of(b'<').as_bytes(), b"&lt;");
    assert_eq!(Reference::of(b'>').as_bytes(), b"&gt;");
    assert_eq!(Reference::of(b'"').as_bytes(), b"&quot;");
    assert_eq!(Reference::of(b' ').as_bytes(), b"&#x20;");
    assert_eq!(Reference::of(b'\'').as_bytes(), b"&#x27;");
    assert_eq!(Reference::of(0x7F).as_bytes(), b"&#x7F;");
}

fn pieces(text: &str) -> Vec<String> {
    let mut scanner = Scanner::new(text);
    let mut found = Vec::new();
    loop {
        match scanner.next_chunk() {
            None => break,
            Some(Chunk::Run(run)) => found.push(format!("run:{}", run)),
            Some(Chunk::Entity(e)) => found.push(format!("entity:{:02X}", e)),
        }
    }
    found
}

#[test]
fn scanner_of_empty_text_hands_out_nothing() {
    assert!(pieces("").is_empty());
    let mut scanner = Scanner::new("");
    assert!(scanner.next_chunk().is_none());
    assert!(scanner.next_chunk().is_none());
}

#[test]
fn scanner_hands_out_whole_runs() {
    assert_eq!(pieces("abc"), vec!["run:abc"]);
    assert_eq!(pieces("a&b"), vec!["run:a", "entity:26", "run:b"]);
    assert_eq!(pieces("<<"), vec!["entity:3C", "entity:3C"]);
    assert_eq!(pieces("100%"), vec!["run:100", "entity:25"]);
    assert_eq!(
        pieces("\u{e9}t\u{e9} <\u{1f600}>"),
        vec!["run:\u{e9}t\u{e9}", "entity:20", "entity:3C", "run:\u{1f600}", "entity:3E"]
    );
}

#[test]
fn scanner_stays_at_the_end() {
    let mut scanner = Scanner::new("a ");
    assert!(matches!(scanner.next_chunk(), Some(Chunk::Run("a"))));
    assert!(matches!(scanner.next_chunk(), Some(Chunk::Entity(b' '))));
    assert!(scanner.next_chunk().is_none());
    assert!(scanner.next_chunk().is_none());
}
