use srt_toolkit::json::{escape, opt_string, string_array};

#[test]
fn escape_leaves_plain_text_alone() {
    assert_eq!(escape("plain text é"), "plain text é");
}

#[test]
fn escape_handles_quotes_backslashes_and_controls() {
    assert_eq!(escape("a\"b\\c"), "a\\\"b\\\\c");
    assert_eq!(escape("\n\r\t"), "\\n\\r\\t");
    assert_eq!(escape("\u{1}\u{1f}"), "\\u0001\\u001f");
    assert_eq!(escape("\u{7f}"), "\u{7f}");
}

#[test]
fn string_array_quotes_and_joins() {
    assert_eq!(string_array(&[]), "[]");
    assert_eq!(string_array(&["a".to_string()]), "[\"a\"]");
    assert_eq!(string_array(&["a".to_string(), "b\"".to_string()]), "[\"a\", \"b\\\"\"]");
}

#[test]
fn opt_string_is_null_or_quoted() {
    assert_eq!(opt_string(&None), "null");
    assert_eq!(opt_string(&Some("in\"tro".to_string())), "\"in\\\"tro\"");
}

/// Reads the body of a JSON string literal back into the text it stands for.
fn decode_json_body(body: &str) -> Option<String> {
    let chars: Vec<char> = body.chars().collect();
    let mut out = String::new();
    let mut i = 0;
    while i < chars.len() {
        let c = chars[i];
        if c == '"' || (c as u32) < 0x20 {
            return None;
        }
        if c != '\\' {
            out.push(c);
            i += 1;
            continue;
        }
        let e = *chars.get(i + 1)?;
        match e {
            '"' => out.push('"'),
            '\\' => out.push('\\'),
            '/' => out.push('/'),
            'b' => out.push('\u{8}'),
            'f' => out.push('\u{c}'),
            'n' => out.push('\n'),
            'r' => out.push('\r'),
            't' => out.push('\t'),
            'u' => {
                let hex: String = chars.get(i + 2..i + 6)?.iter().collect();
                let v = u32::from_str_radix(&hex, 16).ok()?;
                out.push(char::from_u32(v)?);
                i += 6;
                continue;
            }
            _ => return None,
        }
        i += 2;
    }
    Some(out)
}

#[test]
fn escaped_text_decodes_back_to_the_original() {
    for s in ["", "plain", "say \"hi\"\\now", "tab\tline\nreturn\r", "\u{0}\u{7}\u{1b}\u{1f} end", "é ü 漢字 🎬"] {
        let e = escape(s);
        assert!(e.chars().all(|c| (c as u32) >= 0x20));
        assert_eq!(decode_json_body(&e), Some(s.to_string()));
    }
}
