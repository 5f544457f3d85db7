use icalendar::fold::unfold;
use icalendar::utils::{
    alphanumeric_or_space, ical_line, ical_line_alphabetic, ical_line_alphanumeric, ical_lines,
    remove_extra_breaks, IcalLineReader,
};

#[test]
fn parse_ical_line() {
    let parsed1 = ical_line("abcdefg\n hijklmnopqrstu");
    let parsed2 = ical_line("abcdefg\n----------");
    let parsed3 = ical_line("abcdefg----------");
    let parsed4 = ical_line("abcdefg\n hijklmnopqrstu\n vxyz\n");

    assert_eq!(parsed1, Ok(("", "abcdefg\n hijklmnopqrstu")));
    assert_eq!(parsed2, Ok(("\n----------", "abcdefg")));
    assert_eq!(parsed3, Ok(("", "abcdefg----------")));
    assert_eq!(parsed4, Ok(("\n", "abcdefg\n hijklmnopqrstu\n vxyz")));
}

#[test]
fn parse_ical_alphabetic() {
    let parsed1 = ical_line_alphabetic("abcdefg\n hijklmnopqrstu");
    let parsed2 = ical_line_alphabetic("abcdefg\n----------");
    let parsed3 = ical_line_alphabetic("abcdefg----------");
    let parsed4 = ical_line_alphabetic("abcdefg1234567890");

    assert_eq!(parsed1, Ok(("", &"abcdefg\n hijklmnopqrstu"[..])));
    assert_eq!(parsed2, Ok((&"\n----------"[..], &"abcdefg"[..])));
    assert_eq!(parsed3, Ok((&"----------"[..], &"abcdefg"[..])));
    assert_eq!(parsed4, Ok((&"1234567890"[..], &"abcdefg"[..])));
}

#[test]
fn parse_ical_alphanumeric() {
    let parsed1 = ical_line_alphanumeric("abcdefg\n hijklmnopqrstu");
    let parsed2 = ical_line_alphanumeric("abcdefg\n----------");
    let parsed3 = ical_line_alphanumeric("abcdefg----------");
    let parsed4 = ical_line_alphanumeric("abcdefg1234567890");

    assert_eq!(parsed1, Ok(("", &"abcdefg\n hijklmnopqrstu"[..])));
    assert_eq!(parsed2, Ok((&"\n----------"[..], &"abcdefg"[..])));
    assert_eq!(parsed3, Ok((&"----------"[..], &"abcdefg"[..])));
    assert_eq!(parsed4, Ok((&""[..], &"abcdefg1234567890"[..])));
}

#[test]
fn ical_alphanumeric_equality() {
    let input1 = &"abcdefghijklmnopqrstu"[..];
    let input2 = &"abcd2345678lmnopqrstu"[..];
    let input3 = &"abcd-----------------"[..];
    let input4 = &"abcd 345678 mnopqr\ns"[..];
    let input5 = &"abcd 345678,;|opqrs\n"[..];
    for input in &[input1, input2, input3, input4, input5] {
        assert_eq!(ical_line_alphanumeric(input), alphanumeric_or_space(*input));
    }
}

#[test]
fn ical_alphanumeric_no_equality() {
    let input = &"abcdefg\n 123456789"[..];
    assert_ne!(ical_line_alphanumeric(input), alphanumeric_or_space(input));
}

#[test]
fn test_line_iterator() {
    let text: String = "1 hello world\n2 hello\n  world\n3 hello world\n4 hello world\n".into();

    let mut lines: Vec<String> = Vec::new();
    for chunk in ical_lines(&text) {
        lines.push(remove_extra_breaks(&chunk));
    }
    assert_eq!(
        lines,
        vec!["1 hello world", "2 hello world", "3 hello world", "4 hello world",]
    )
}

#[test]
fn test_line_iterator2() {
    let text: String = "1 hello world\n2 hello\n  world\n3 hello world\n4 hello world\n".into();

    let mut reader = IcalLineReader::new(&text);
    let mut lines: Vec<String> = Vec::new();
    while lines.len() < 4 {
        match reader.next() {
            Some(chunk) => lines.push(remove_extra_breaks(&chunk)),
            None => break,
        }
    }
    assert_eq!(
        lines,
        vec!["1 hello world", "2 hello world", "3 hello world", "4 hello world",]
    )
}

#[test]
fn unfold_continuation() {
    // the fold's line break and its single marker space are both dropped
    let lines = unfold("DESCRIPTION:line one\n line two\n");
    assert_eq!(lines, vec!["DESCRIPTION:line oneline two"]);
}

#[test]
fn unfold_accepts_crlf_and_bare_breaks() {
    assert_eq!(unfold("A:1\r\nB:2\nC:3\r\n"), vec!["A:1", "B:2", "C:3"]);
    assert_eq!(unfold("A:one\r\n  two\r\n"), vec!["A:one two"]);
}

#[test]
fn unfold_empty_and_blank_lines() {
    assert_eq!(unfold(""), Vec::<String>::new());
    assert_eq!(unfold("\n"), vec![""]);
    assert_eq!(unfold("A:1\n\nB:2\n"), vec!["A:1", "", "B:2"]);
    assert_eq!(unfold("A:1"), vec!["A:1"]);
}

#[test]
fn reader_stops_at_empty_chunk() {
    let mut reader = IcalLineReader::new("abc\n\ndef\n");
    assert_eq!(reader.next(), Some("abc".to_string()));
    // after the first chunk's break, the next chunk is empty: reading ends
    assert_eq!(reader.next(), None);
    assert_eq!(reader.next(), None);
}
