use otn::chars_to_target;
use otn::parse_chars;
use otn::parse_slice;
use otn::slice_to_target;
use otn::Builder;
use otn::Contents;

#[test]
fn test_parse() {
    let s = "0~a:a
+a
|b
|c
0~b:a
1~a
2~a:b
0~c:
|
|cc
|
";
    let (t, errs) = chars_to_target(s);
    println!("{:?}", t);
    assert_eq!(t[1].text[0], "a");
    assert_eq!(t[1].value[0].value[0].text[0], "b");
    assert!(errs.is_empty());
}

#[test]
fn full_scenario() {
    let s = "0~a:a\n+a\n|b\n|c\n0~b:a\n1~a\n2~a:b\n0~c:\n|\n|cc\n|\n";
    let (t, errs) = chars_to_target(s);
    assert!(errs.is_empty());
    assert_eq!(t.len(), 3);
    assert_eq!(t[0].name, "a");
    assert_eq!(t[0].text, vec!["a".to_string(), "a\nb\nc".to_string()]);
    assert!(t[0].value.is_empty());
    assert_eq!(t[1].name, "b");
    assert_eq!(t[1].text, vec!["a".to_string()]);
    assert_eq!(t[1].value.len(), 1);
    assert_eq!(t[1].value[0].name, "a");
    assert!(t[1].value[0].text.is_empty());
    assert_eq!(t[1].value[0].value.len(), 1);
    assert_eq!(t[1].value[0].value[0].name, "a");
    assert_eq!(t[1].value[0].value[0].text, vec!["b".to_string()]);
    assert_eq!(t[2].name, "c");
    assert_eq!(t[2].text, vec!["\n\ncc\n".to_string()]);
    assert!(t[2].value.is_empty());
}

#[test]
fn continuation_keeps_blank_lines() {
    let (t, errs) = chars_to_target("0~k:a\n|\n|b\n");
    assert!(errs.is_empty());
    assert_eq!(t[0].name, "k");
    assert_eq!(t[0].text, vec!["a\n\nb".to_string()]);
}

#[test]
fn array_lines_are_independent_entries() {
    let (t, errs) = chars_to_target("0~k:x\n+y\n+z\n");
    assert!(errs.is_empty());
    assert_eq!(t.len(), 1);
    assert_eq!(t[0].text, vec!["x".to_string(), "y".to_string(), "z".to_string()]);
}

#[test]
fn escaped_colon_in_key() {
    let (t, errs) = chars_to_target("0~a\\:b:v\n");
    assert!(errs.is_empty());
    assert_eq!(t[0].name, "a:b");
    assert_eq!(t[0].text, vec!["v".to_string()]);
}

#[test]
fn backslash_before_newline_ends_entry() {
    let (t, errs) = chars_to_target("0~x\\\n0~y:z\n");
    assert!(errs.is_empty());
    assert_eq!(t.len(), 2);
    assert_eq!(t[0].name, "x");
    assert!(t[0].text.is_empty());
    assert_eq!(t[1].name, "y");
    assert_eq!(t[1].text, vec!["z".to_string()]);
}

#[test]
fn malformed_offset_is_reported_and_skipped() {
    let (t, errs) = chars_to_target("3~a:b\n0~c:d\n");
    assert_eq!(errs, vec![(1, 2)]);
    assert_eq!(t.len(), 1);
    assert_eq!(t[0].name, "c");
    assert_eq!(t[0].text, vec!["d".to_string()]);
}

#[test]
fn malformed_offset_row_is_counted() {
    let (t, errs) = chars_to_target("0~a:b\n3~c:d\n0~e:f\n");
    assert_eq!(errs, vec![(2, 1)]);
    assert_eq!(t.len(), 2);
    assert_eq!(t[0].name, "a");
    assert_eq!(t[1].name, "e");
}

#[test]
fn unreachable_offset_is_dropped_silently() {
    let (t, errs) = chars_to_target("0~a:x\n1~b:y\n0~c:z\n2~d:w\n");
    assert!(errs.is_empty());
    assert_eq!(t.len(), 2);
    assert_eq!(t[0].value[0].name, "b");
    assert_eq!(t[1].name, "c");
    assert!(t[1].value.is_empty());
}

#[test]
fn empty_input_gives_empty_tree() {
    let (t, errs) = chars_to_target("");
    assert!(t.is_empty());
    assert!(errs.is_empty());
}

#[test]
fn crlf_line_endings() {
    let (t, errs) = chars_to_target("0~a:x\r\n0~b:y");
    assert!(errs.is_empty());
    assert_eq!(t.len(), 2);
    assert_eq!(t[0].text, vec!["x".to_string()]);
    assert_eq!(t[1].text, vec!["y".to_string()]);
}

#[test]
fn hexadecimal_offsets() {
    let mut s = String::new();
    for i in 0..10 {
        s.push_str(&format!("{:x}~n:t\n", i));
    }
    s.push_str("a~deep:v\n");
    let (t, errs) = chars_to_target(&s);
    assert!(errs.is_empty());
    let mut cur = &t[0];
    for _ in 0..10 {
        cur = &cur.value[0];
    }
    assert_eq!(cur.name, "deep");
    assert_eq!(cur.text, vec!["v".to_string()]);
}

#[test]
fn header_lines_are_skipped() {
    let (t, errs) = chars_to_target("#note\n#more\n0~a:b\n");
    assert!(errs.is_empty());
    assert_eq!(t.len(), 1);
    assert_eq!(t[0].name, "a");
}

#[test]
fn repeated_keys_stay_separate() {
    let (t, errs) = chars_to_target("0~a:x\n0~a:y\n");
    assert!(errs.is_empty());
    assert_eq!(t.len(), 1);
    assert_eq!(t[0].name, "a");
    assert_eq!(t[0].text, vec!["x".to_string(), "y".to_string()]);
}

#[test]
fn slice_parsing_matches() {
    let s = "0~a:a\n+a\n|b\n|c\n";
    let buf: Vec<char> = s.chars().collect();
    let (t, errs) = slice_to_target(&buf);
    assert!(errs.is_empty());
    assert_eq!(t[0].text, vec!["a".to_string(), "a\nb\nc".to_string()]);
}

#[test]
fn generic_parse_entry_points() {
    let b = parse_chars("0~a:x\n", Builder::new());
    let (t, errs) = b.get();
    assert!(errs.is_empty());
    assert_eq!(t[0].text, vec!["x".to_string()]);

    let buf: Vec<char> = "0~a:x\n".chars().collect();
    let b = parse_slice(&buf, Builder::new());
    let (t, errs) = b.get();
    assert!(errs.is_empty());
    assert_eq!(t[0].name, "a");
}

#[test]
fn bad_continuation_marker_is_reported() {
    let (t, errs) = chars_to_target("0~a:x\n  ?\n0~b:y\n");
    assert_eq!(errs.len(), 1);
    assert_eq!(t.len(), 2);
    assert_eq!(t[0].text, vec!["x".to_string()]);
    assert_eq!(t[1].name, "b");
}

#[test]
fn empty_key_is_an_error() {
    let (t, errs) = chars_to_target("0~:x\n0~b:y\n");
    assert_eq!(errs.len(), 1);
    assert_eq!(t.len(), 1);
    assert_eq!(t[0].name, "b");
}

#[test]
fn first_entry_offset_must_be_zero() {
    let (t, errs) = chars_to_target("1~a:b\n0~c:d\n");
    assert_eq!(errs.len(), 1);
    assert_eq!(t.len(), 1);
    assert_eq!(t[0].name, "c");
}

#[test]
fn chain_can_be_rebuilt_after_returning_to_top() {
    let (t, errs) = chars_to_target("0~a:\n1~b:\n2~c:x\n0~d:\n1~e:\n2~f:y\n");
    assert!(errs.is_empty());
    assert_eq!(t.len(), 2);
    assert_eq!(t[1].value[0].value[0].name, "f");
    assert_eq!(t[1].value[0].value[0].text, vec!["y".to_string()]);
}

#[test]
fn lfcr_line_endings() {
    let (t, errs) = chars_to_target("0~a:x\n\r0~b:y");
    assert!(errs.is_empty());
    assert_eq!(t.len(), 2);
    assert_eq!(t[0].text, vec!["x".to_string()]);
    assert_eq!(t[1].text, vec!["y".to_string()]);
}

#[test]
fn header_marker_after_body_is_an_error() {
    let (t, errs) = chars_to_target("#h\n0~a:x\n#t\n0~b:y\n");
    assert_eq!(errs.len(), 1);
    assert_eq!(t.len(), 2);
    assert_eq!(t[0].name, "a");
    assert_eq!(t[1].name, "b");
}

#[test]
fn blank_line_before_content_is_an_error() {
    let (t, errs) = chars_to_target("\n0~a:x\n");
    assert_eq!(errs, vec![(1, 1)]);
    assert_eq!(t.len(), 1);
    assert_eq!(t[0].name, "a");
}

#[test]
fn lfcr_pair_continues_text() {
    // LF then CR is one newline event, re-emitted exactly by `|`
    let (t, errs) = chars_to_target("0~k:a\n\r|b\n");
    assert!(errs.is_empty());
    assert_eq!(t[0].text, vec!["a\n\rb".to_string()]);
}

#[test]
fn crlf_pair_re_emitted_in_continuation() {
    let (t, errs) = chars_to_target("0~k:a\r\n|b\n");
    assert!(errs.is_empty());
    assert_eq!(t[0].text, vec!["a\r\nb".to_string()]);
}

#[test]
fn two_lfcr_events_count_two_rows() {
    // LF CR LF CR is two newline events, so the bad line is row 3
    let (t, errs) = chars_to_target("0~k:x\n\r\n\r9~a:b\n");
    assert_eq!(errs, vec![(3, 1)]);
    assert_eq!(t.len(), 1);
    assert_eq!(t[0].text, vec!["x".to_string()]);
}

#[test]
fn two_bare_cr_events_count_two_rows() {
    let (t, errs) = chars_to_target("0~k:x\r\r9~a:b\n");
    assert_eq!(errs, vec![(3, 1)]);
    assert_eq!(t.len(), 1);
    assert_eq!(t[0].text, vec!["x".to_string()]);
}

#[test]
fn trailing_backslash_at_end_of_stream() {
    // end of stream cancels the escape and closes the entry with empty text
    let (t, errs) = chars_to_target("0~k\\");
    assert!(errs.is_empty());
    assert_eq!(t.len(), 1);
    assert_eq!(t[0].name, "k");
    assert!(t[0].text.is_empty());
}

#[test]
fn unterminated_header_line_is_dropped() {
    let (t, errs) = chars_to_target("#abc");
    assert!(t.is_empty());
    assert!(errs.is_empty());
}
