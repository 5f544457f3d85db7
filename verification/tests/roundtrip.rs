use icalendar::escape::{escape, unescape};
use icalendar::fold::{fold, unfold};
use icalendar::model::{
    Component, ComponentType, IcalToken, Parameter, ParseError, Property,
};
use icalendar::parse::{parse, read_calendar, read_calendar_lines};
use icalendar::serialize::serialize;
use icalendar::token::{parse_token, read_begin, read_component_type, read_end};

fn prop(key: &str, val: &str, params: Vec<Parameter>) -> Property {
    Property { key: key.to_string(), val: val.to_string(), params }
}

fn param(key: &str, val: &str) -> Parameter {
    Parameter { key: key.to_string(), val: val.to_string() }
}

#[test]
fn empty_input_parses_to_nothing() {
    assert_eq!(parse(""), Ok(vec![]));
}

#[test]
fn nesting_balance_rejected() {
    assert_eq!(
        parse("BEGIN:VEVENT\nEND:VTODO\n"),
        Err(ParseError::MismatchedEnd {
            expected: ComponentType::Event,
            found: ComponentType::Todo,
            line: 1
        })
    );
}

#[test]
fn unterminated_rejected() {
    assert_eq!(
        parse("BEGIN:VEVENT\nSUMMARY:x\n"),
        Err(ParseError::UnterminatedComponent { kind: ComponentType::Event })
    );
}

#[test]
fn unexpected_end_rejected() {
    assert_eq!(
        parse("END:VEVENT\n"),
        Err(ParseError::UnexpectedEnd { found: ComponentType::Event, line: 0 })
    );
}

#[test]
fn property_outside_component_rejected() {
    assert_eq!(parse("SUMMARY:x\n"), Err(ParseError::PropertyOutsideComponent { line: 0 }));
}

#[test]
fn grammar_error_carries_line_and_offset() {
    match parse("BEGIN:VEVENT\nKEY;foo:VALUE\nEND:VEVENT\n") {
        Err(ParseError::Grammar(e)) => {
            assert_eq!(e.line, "KEY;foo:VALUE");
            assert_eq!(e.index, 1);
            assert_eq!(e.offset, 7);
        },
        other => panic!("expected a grammar error, got {:?}", other),
    }
}

#[test]
fn nested_components_parse() {
    let parsed = parse("BEGIN:FOO\nFOO-PROP:spam\nBEGIN:BAR\nBAR-PROP:spam\nEND:BAR\nEND:FOO\n");
    assert_eq!(
        parsed,
        Ok(vec![Component {
            kind: ComponentType::Other("FOO".to_string()),
            properties: vec![prop("FOO-PROP", "spam", vec![])],
            components: vec![Component {
                kind: ComponentType::Other("BAR".to_string()),
                properties: vec![prop("BAR-PROP", "spam", vec![])],
                components: vec![],
            }],
        }])
    );
}

#[test]
fn token_with_parameters() {
    assert_eq!(
        parse_token("KEY;foo=bar;DATE=20170218:VALUE"),
        Ok(IcalToken::Property(prop(
            "KEY",
            "VALUE",
            vec![param("foo", "bar"), param("DATE", "20170218")]
        )))
    );
}

#[test]
fn token_begin_and_end() {
    assert_eq!(parse_token("BEGIN:VEVENT"), Ok(IcalToken::Begin(ComponentType::Event)));
    assert_eq!(parse_token("end:vtodo"), Ok(IcalToken::End(ComponentType::Other("vtodo".to_string()))));
    assert_eq!(parse_token("END:VTODO"), Ok(IcalToken::End(ComponentType::Todo)));
}

#[test]
fn token_errors_carry_offsets() {
    // the parameter after `KEY;foo` is missing its `=`: offset 7
    let e = parse_token("KEY;foo:VALUE").unwrap_err();
    assert_eq!(e.offset, 7);
    assert_eq!(e.line, "KEY;foo:VALUE");
    // no separating `:` at all
    assert!(parse_token("JUSTANAME").is_err());
    // an empty BEGIN value is not a component-type token
    assert!(parse_token("BEGIN:").is_err());
}

#[test]
fn component_type_names() {
    assert_eq!(read_component_type("VCALENDAR"), ComponentType::Calendar);
    assert_eq!(read_component_type("VEVENT"), ComponentType::Event);
    assert_eq!(read_component_type("VTODO"), ComponentType::Todo);
    assert_eq!(read_component_type("VVENUE"), ComponentType::Venue);
    assert_eq!(read_component_type("X-THING"), ComponentType::Other("X-THING".to_string()));
}

#[test]
fn begin_end_readers() {
    assert_eq!(read_begin("BEGIN:VCALENDAR"), Some(IcalToken::Begin(ComponentType::Calendar)));
    assert_eq!(read_begin("END:VCALENDAR"), None);
    assert_eq!(read_end("END:VCALENDAR"), Some(IcalToken::End(ComponentType::Calendar)));
    assert_eq!(read_end("KEY:VALUE"), None);
}

#[test]
fn escape_inverse_on_specials() {
    let samples = [
        "plain",
        "semi;colon",
        "comma,separated",
        "back\\slash",
        "multi\nline\nvalue",
        "all\\;of,them\ntogether",
        "",
    ];
    for s in &samples {
        assert_eq!(unescape(&escape(s)), *s);
    }
}

#[test]
fn escape_exact_form() {
    assert_eq!(escape("a;b,c\\d\ne"), "a\\;b\\,c\\\\d\\ne");
    assert_eq!(unescape("a\\;b\\,c\\\\d\\Ne"), "a;b,c\\d\ne");
    // a stray backslash is kept as it stands
    assert_eq!(unescape("a\\xb"), "a\\xb");
    assert_eq!(unescape("trailing\\"), "trailing\\");
}

#[test]
fn fold_unfold_inverse() {
    let long = "X".repeat(200);
    let line = format!("DESCRIPTION:{}", long);
    let folded = fold(&line);
    let mut terminated = folded.clone();
    terminated.push_str("\r\n");
    assert_eq!(unfold(&terminated), vec![line]);
}

#[test]
fn fold_exact_form() {
    let line = "A".repeat(80);
    let expected = format!("{}\r\n {}", "A".repeat(75), "A".repeat(5));
    assert_eq!(fold(&line), expected);
    // short lines are left alone
    assert_eq!(fold("short"), "short");
}

#[test]
fn serialize_exact_text() {
    let cal = Component {
        kind: ComponentType::Calendar,
        properties: vec![prop("SUMMARY", "hi", vec![])],
        components: vec![],
    };
    assert_eq!(serialize(&[cal]), "BEGIN:VCALENDAR\r\nSUMMARY:hi\r\nEND:VCALENDAR\r\n");
}

#[test]
fn serialize_escapes_and_quotes() {
    let c = Component {
        kind: ComponentType::Event,
        properties: vec![
            prop("NOTE", "a;b,c\nd", vec![]),
            prop("ORG", "x", vec![param("CN", "Doe; John")]),
        ],
        components: vec![],
    };
    assert_eq!(
        serialize(&[c]),
        "BEGIN:VEVENT\r\nNOTE:a\\;b\\,c\\nd\r\nORG;CN=\"Doe; John\":x\r\nEND:VEVENT\r\n"
    );
}

#[test]
fn round_trip_tree() {
    let tree = Component {
        kind: ComponentType::Calendar,
        properties: vec![prop("VERSION", "2.0", vec![])],
        components: vec![
            Component {
                kind: ComponentType::Event,
                properties: vec![
                    prop("SUMMARY", "party; bring your own beer\nsecond line", vec![]),
                    prop(
                        "DTSTART",
                        "20170218",
                        vec![param("TZID", "Europe/Berlin"), param("X-NOTE", "a:b")],
                    ),
                    prop("LONG", &"y".repeat(300), vec![]),
                ],
                components: vec![Component {
                    kind: ComponentType::Other("X-INNER".to_string()),
                    properties: vec![prop("K", "v", vec![])],
                    components: vec![],
                }],
            },
            Component {
                kind: ComponentType::Todo,
                properties: vec![prop("SUMMARY", "Buy some milk", vec![])],
                components: vec![],
            },
        ],
    };
    let text = serialize(std::slice::from_ref(&tree));
    assert_eq!(parse(&text), Ok(vec![tree]));
}

#[test]
fn round_trip_multibyte_folding() {
    // three octets per character: folding must not split one
    let val = "\u{20AC}".repeat(60);
    let c = Component {
        kind: ComponentType::Event,
        properties: vec![prop("NOTE", &val, vec![])],
        components: vec![],
    };
    let text = serialize(std::slice::from_ref(&c));
    assert_eq!(parse(&text), Ok(vec![c]));
}

#[test]
fn multiple_roots_kept_as_siblings() {
    let a = Component {
        kind: ComponentType::Calendar,
        properties: vec![prop("PRODID", "one", vec![])],
        components: vec![],
    };
    let b = Component {
        kind: ComponentType::Calendar,
        properties: vec![prop("PRODID", "two", vec![])],
        components: vec![],
    };
    let text = serialize(&[a, b]);
    let parsed = parse(&text).unwrap();
    assert_eq!(parsed.len(), 2);
    assert_eq!(parsed[0].properties[0].val, "one");
    assert_eq!(parsed[1].properties[0].val, "two");
}

#[test]
fn read_calendar_matches_parse() {
    let good = "BEGIN:VCALENDAR\nEND:VCALENDAR\n";
    assert_eq!(
        read_calendar(good),
        Some(vec![Component {
            kind: ComponentType::Calendar,
            properties: vec![],
            components: vec![]
        }])
    );
    assert_eq!(read_calendar("BEGIN:VCALENDAR\n"), None);
}

#[test]
fn calendar_lines_tokenized_in_order() {
    let tokens = read_calendar_lines("BEGIN:VEVENT\nSUMMARY:hi\n hello\nEND:VEVENT\n");
    assert_eq!(
        tokens,
        vec![
            Ok(IcalToken::Begin(ComponentType::Event)),
            Ok(IcalToken::Property(prop("SUMMARY", "hihello", vec![]))),
            Ok(IcalToken::End(ComponentType::Event)),
        ]
    );
    let bad = read_calendar_lines("NOT A LINE\n");
    assert_eq!(bad.len(), 1);
    let e = bad[0].as_ref().unwrap_err();
    assert_eq!(e.line, "NOT A LINE");
    assert_eq!(e.index, 0);
    assert_eq!(e.offset, 3);
}

#[test]
fn end_matching_is_case_insensitive() {
    let parsed = parse("BEGIN:foo\nK:v\nend:FOO\n").unwrap();
    assert_eq!(parsed.len(), 1);
    // the BEGIN spelling is the one kept
    assert_eq!(parsed[0].kind, ComponentType::Other("foo".to_string()));
}

#[test]
fn quoted_parameter_values() {
    match parse_token("KEY;A=\"x:y;z\";B=w:VALUE") {
        Ok(IcalToken::Property(p)) => {
            assert_eq!(p.params, vec![param("A", "x:y;z"), param("B", "w")]);
            assert_eq!(p.val, "VALUE");
        },
        other => panic!("expected a property token, got {:?}", other),
    }
    // an unterminated quote is rejected
    assert!(parse_token("KEY;A=\"x:VALUE").is_err());
}

#[test]
fn lenient_calendar_reads_what_it_can() {
    let cs = icalendar::parse::calendar("BEGIN:VEVENT\nK:v\nEND:VEVENT\ntrailing junk");
    assert_eq!(cs.len(), 1);
    assert_eq!(cs[0].kind, ComponentType::Event);
    assert_eq!(icalendar::parse::calendar("no calendar here"), vec![]);
}

#[test]
fn components_report_rest() {
    let (rest, cs) =
        icalendar::parse::components("BEGIN:VEVENT\nEND:VEVENT\nBEGIN:VTODO\nEND:VTODO\nX").unwrap();
    assert_eq!(cs.len(), 2);
    assert_eq!(rest, "X");
}
