use std::borrow::Cow;

use attribute_escape::{
    encode_unquoted_attribute, encode_unquoted_attribute_to_string,
    encode_unquoted_attribute_to_vec,
};

#[test]
fn empty_text_stays_empty() {
    let escaped = encode_unquoted_attribute("");
    assert_eq!(escaped, "");
    assert!(matches!(escaped, Cow::Borrowed(_)));
}

#[test]
fn single_letter_is_borrowed() {
    let text = String::from("a");
    let escaped = encode_unquoted_attribute(text.as_str());
    assert_eq!(escaped, "a");
    match escaped {
        Cow::Borrowed(same) => {
            assert_eq!(same.len(), text.len());
            assert!(same.as_bytes().as_ptr_range() == text.as_bytes().as_ptr_range());
        }
        Cow::Owned(_) => panic!("a clean text must not be copied"),
    }
}

#[test]
fn ampersand_between_letters() {
    let escaped = encode_unquoted_attribute("a&b");
    assert_eq!(escaped, "a&amp;b");
    assert!(matches!(escaped, Cow::Owned(_)));
}

#[test]
fn two_less_than_signs() {
    assert_eq!(encode_unquoted_attribute("<<"), "&lt;&lt;");
}

#[test]
fn percent_sign_becomes_numeric_reference() {
    assert_eq!(encode_unquoted_attribute("100%"), "100&#x25;");
}

#[test]
fn named_references() {
    assert_eq!(encode_unquoted_attribute("&"), "&amp;");
    assert_eq!(encode_unquoted_attribute("<"), "&lt;");
    assert_eq!(encode_unquoted_attribute(">"), "&gt;");
    assert_eq!(encode_unquoted_attribute("\""), "&quot;");
}

#[test]
fn numeric_references() {
    assert_eq!(encode_unquoted_attribute(" "), "&#x20;");
    assert_eq!(encode_unquoted_attribute("'"), "&#x27;");
    assert_eq!(encode_unquoted_attribute("\0"), "&#x00;");
    assert_eq!(encode_unquoted_attribute("\n"), "&#x0A;");
    assert_eq!(encode_unquoted_attribute("/"), "&#x2F;");
    assert_eq!(encode_unquoted_attribute("="), "&#x3D;");
    assert_eq!(encode_unquoted_attribute("`"), "&#x60;");
    assert_eq!(encode_unquoted_attribute("\u{7f}"), "&#x7F;");
}

#[test]
fn every_ascii_character_alone() {
    for value in 0u8..128 {
        let c = value as char;
        let text = c.to_string();
        let escaped = encode_unquoted_attribute(text.as_str());
        if c.is_ascii_alphanumeric() {
            assert_eq!(escaped, text);
            assert!(matches!(escaped, Cow::Borrowed(_)));
        } else {
            let expected = match c {
                '&' => String::from("&amp;"),
                '<' => String::from("&lt;"),
                '>' => String::from("&gt;"),
                '"' => String::from("&quot;"),
                _ => format!("&#x{:02X};", value),
            };
            assert_eq!(escaped, expected);
            assert!(matches!(escaped, Cow::Owned(_)));
        }
    }
}

#[test]
fn letters_and_digits_are_kept() {
    let text = "0123456789ABCDEFGHIJKLMNOPQRSTUVWXYZabcdefghijklmnopqrstuvwxyz";
    let escaped = encode_unquoted_attribute(text);
    assert_eq!(escaped, text);
    assert!(matches!(escaped, Cow::Borrowed(_)));
}

#[test]
fn characters_next_to_the_alphanumeric_ranges_are_escaped() {
    assert_eq!(encode_unquoted_attribute("/:@[`{"), "&#x2F;&#x3A;&#x40;&#x5B;&#x60;&#x7B;");
}

#[test]
fn multi_byte_characters_pass_through() {
    let text = "h\u{e9}llo\u{4e16}\u{754c}\u{1f600}";
    let escaped = encode_unquoted_attribute(text);
    assert_eq!(escaped, text);
    assert!(matches!(escaped, Cow::Borrowed(_)));
}

#[test]
fn multi_byte_characters_between_escaped_ones() {
    assert_eq!(
        encode_unquoted_attribute("<\u{e9}>&\u{4e16} \u{1f600}\"\u{7ff}'\u{800}"),
        "&lt;\u{e9}&gt;&amp;\u{4e16}&#x20;\u{1f600}&quot;\u{7ff}&#x27;\u{800}"
    );
}

#[test]
fn widest_and_narrowest_of_each_width_pass_through() {
    let text = "\u{80}\u{7ff}\u{800}\u{ffff}\u{10000}\u{10ffff}";
    assert_eq!(encode_unquoted_attribute(text), text);
    let mut bytes = Vec::new();
    encode_unquoted_attribute_to_vec(text, &mut bytes);
    assert_eq!(bytes, text.as_bytes());
}

#[test]
fn escaped_character_first_and_last() {
    assert_eq!(encode_unquoted_attribute("&abc"), "&amp;abc");
    assert_eq!(encode_unquoted_attribute("abc&"), "abc&amp;");
    assert_eq!(encode_unquoted_attribute(" a b "), "&#x20;a&#x20;b&#x20;");
}

#[test]
fn a_sentence() {
    assert_eq!(
        encode_unquoted_attribute("The quick <b>brown</b> fox & \"friends\""),
        "The&#x20;quick&#x20;&lt;b&gt;brown&lt;&#x2F;b&gt;&#x20;fox&#x20;&amp;&#x20;&quot;friends&quot;"
    );
}

#[test]
fn to_vec_returns_what_it_appended() {
    let mut output = Vec::new();
    let written = encode_unquoted_attribute_to_vec("a&b", &mut output);
    assert_eq!(written, b"a&amp;b");
    assert_eq!(output, b"a&amp;b");
}

#[test]
fn to_vec_twice_accumulates() {
    let mut output = vec![b'x', b'=', 0xFF];
    {
        let first = encode_unquoted_attribute_to_vec("a&b", &mut output);
        assert_eq!(first, b"a&amp;b");
    }
    {
        let second = encode_unquoted_attribute_to_vec("100%", &mut output);
        assert_eq!(second, b"100&#x25;");
    }
    let mut expected = vec![b'x', b'=', 0xFF];
    expected.extend_from_slice(b"a&amp;b100&#x25;");
    assert_eq!(output, expected);
}

#[test]
fn to_vec_of_empty_text_appends_nothing() {
    let mut output = vec![1u8, 2, 3];
    let written = encode_unquoted_attribute_to_vec("", &mut output);
    assert!(written.is_empty());
    assert_eq!(output, vec![1u8, 2, 3]);
}

#[test]
fn to_string_returns_what_it_appended() {
    let mut output = String::new();
    let written = encode_unquoted_attribute_to_string("<<", &mut output);
    assert_eq!(written, "&lt;&lt;");
    assert_eq!(output, "&lt;&lt;");
}

#[test]
fn to_string_twice_accumulates() {
    let mut output = String::from("value=\u{e9}&");
    {
        let first = encode_unquoted_attribute_to_string("a&b", &mut output);
        assert_eq!(first, "a&amp;b");
    }
    {
        let second = encode_unquoted_attribute_to_string("\u{4e16} %", &mut output);
        assert_eq!(second, "\u{4e16}&#x20;&#x25;");
    }
    assert_eq!(output, "value=\u{e9}&a&amp;b\u{4e16}&#x20;&#x25;");
}

#[test]
fn to_string_of_clean_text_copies_it() {
    let mut output = String::from("[");
    let written = encode_unquoted_attribute_to_string("abc\u{e9}", &mut output);
    assert_eq!(written, "abc\u{e9}");
    assert_eq!(output, "[abc\u{e9}");
}

#[test]
fn the_three_forms_agree() {
    let texts = ["", "a", "a&b", "<<", "100%", "\u{e9}<\u{1f600}>", " ", "x y\tz\"'"];
    for text in texts {
        let escaped = encode_unquoted_attribute(text).into_owned();
        let mut string = String::new();
        encode_unquoted_attribute_to_string(text, &mut string);
        let mut bytes = Vec::new();
        encode_unquoted_attribute_to_vec(text, &mut bytes);
        assert_eq!(string, escaped);
        assert_eq!(bytes, escaped.as_bytes());
    }
}

fn hex_value(digit: char) -> u32 {
    match digit {
        '0'..='9' => digit as u32 - '0' as u32,
        'A'..='F' => digit as u32 - 'A' as u32 + 10,
        _ => panic!("not an upper-case hexadecimal digit: {:?}", digit),
    }
}

fn read_back(escaped: &str) -> String {
    let chars: Vec<char> = escaped.chars().collect();
    let mut text = String::new();
    let mut i = 0;
    while i < chars.len() {
        if chars[i] != '&' {
            text.push(chars[i]);
            i += 1;
            continue;
        }
        let end = (i..chars.len()).find(|&j| chars[j] == ';').expect("a reference ends with ;");
        let name: String = chars[i + 1..end].iter().collect();
        match name.as_str() {
            "amp" => text.push('&'),
            "lt" => text.push('<'),
            "gt" => text.push('>'),
            "quot" => text.push('"'),
            _ => {
                let digits: Vec<char> = name.chars().collect();
                assert_eq!(digits.len(), 4);
                assert_eq!(digits[0], '#');
                assert_eq!(digits[1], 'x');
                let value = 16 * hex_value(digits[2]) + hex_value(digits[3]);
                text.push(char::from_u32(value).expect("a character"));
            }
        }
        i = end + 1;
    }
    text
}

#[test]
fn escaped_text_reads_back() {
    let mut all_ascii = String::new();
    for value in 0u8..128 {
        all_ascii.push(value as char);
    }
    let texts = [
        "",
        "a",
        "a&b",
        "&amp;",
        "&#x26;",
        "&&;;##xx",
        "<<",
        "100%",
        "\u{e9}<\u{1f600}>\u{7ff}&\u{800}",
        all_ascii.as_str(),
    ];
    for text in texts {
        let escaped = encode_unquoted_attribute(text);
        assert_eq!(read_back(&escaped), text);
    }
}

#[test]
fn escaped_text_holds_only_letters_digits_references_and_non_ascii() {
    let escaped = encode_unquoted_attribute("a b<c>\u{e9}\"&'=/`\u{1f600}-_.:");
    for c in escaped.chars() {
        assert!(c.is_ascii_alphanumeric() || !c.is_ascii() || c == '&' || c == '#' || c == ';');
    }
}
