use icalendar::model::{Component, ComponentType, Parameter, Property};
use icalendar::parse::{component, property, property_list};
use icalendar::token::{read_parameter, read_parameters};

fn prop(key: &str, val: &str, params: Vec<Parameter>) -> Property {
    Property { key: key.to_string(), val: val.to_string(), params }
}

fn param(key: &str, val: &str) -> Parameter {
    Parameter { key: key.to_string(), val: val.to_string() }
}

#[test]
fn parse_empty_component1() {
    assert_eq!(
        component("BEGIN:VEVENT\nEND:VEVENT\n"),
        Ok((
            "",
            Component { kind: ComponentType::Event, properties: vec![], components: vec![] }
        ))
    );
}

#[test]
fn parse_empty_component2() {
    assert_eq!(
        component("BEGIN:VEVENT\n\nEND:VEVENT\n"),
        Ok((
            "",
            Component { kind: ComponentType::Event, properties: vec![], components: vec![] }
        )),
        "empty component with empty line"
    );
}

#[test]
fn parse_component() {
    let sample_0 = "BEGIN:VEVENT\nKEY;foo=bar:VALUE\nKEY;foo=bar;DATE=20170218:VALUE\nEND:VEVENT\n";
    let sample_1 = "BEGIN:VEVENT
KEY;foo=bar:VALUE
KEY;foo=bar;DATE=20170218:VALUE
END:VEVENT
";
    assert_eq!(sample_0, sample_1);

    let expectation = Component {
        kind: ComponentType::Event,
        properties: vec![
            prop("KEY", "VALUE", vec![param("foo", "bar")]),
            prop("KEY", "VALUE", vec![param("foo", "bar"), param("DATE", "20170218")]),
        ],
        components: vec![],
    };

    assert_eq!(component(sample_1).unwrap().1, expectation);
}

#[test]
fn test_component() {
    assert_eq!(
        component("BEGIN:FOO\nEND:FOO").unwrap(),
        (
            "",
            Component {
                kind: ComponentType::Other("FOO".to_string()),
                properties: vec![],
                components: vec![]
            }
        )
    );
    assert_eq!(
        component("BEGIN:FOO\nFOO-PROP:spam\nEND:FOO").unwrap(),
        (
            "",
            Component {
                kind: ComponentType::Other("FOO".to_string()),
                properties: vec![prop("FOO-PROP", "spam", vec![])],
                components: vec![]
            }
        )
    );
    assert_eq!(
        component("BEGIN:FOO\nFOO-PROP:spam\nBEGIN:BAR\nBAR-PROP:spam\nEND:BAR\nEND:FOO").unwrap(),
        (
            "",
            Component {
                kind: ComponentType::Other("FOO".to_string()),
                properties: vec![prop("FOO-PROP", "spam", vec![])],
                components: vec![Component {
                    kind: ComponentType::Other("BAR".to_string()),
                    properties: vec![prop("BAR-PROP", "spam", vec![])],
                    components: vec![]
                }]
            }
        )
    );
}

#[test]
fn test_parameter() {
    assert_eq!(read_parameter(";KEY=VALUE"), Ok(("", param("KEY", "VALUE"))));
    assert_eq!(read_parameter("; KEY=VALUE"), Ok(("", param("KEY", "VALUE"))));
    assert_eq!(read_parameter("; KEY=VAL UE"), Ok(("", param("KEY", "VAL UE"))));
    assert_eq!(read_parameter("; KEY="), Ok(("", param("KEY", ""))));
}

#[test]
fn test_parameter_error() {
    assert!(read_parameter(";KEY").is_err());
}

#[test]
fn parse_parameter_list() {
    assert_eq!(read_parameters(";KEY=VALUE"), Ok(("", vec![param("KEY", "VALUE")])));

    assert_eq!(
        read_parameters(";KEY=VALUE;DATE=TODAY"),
        Ok(("", vec![param("KEY", "VALUE"), param("DATE", "TODAY")]))
    );

    assert_eq!(
        read_parameters(";KEY=VALUE;DATE=20170218"),
        Ok(("", vec![param("KEY", "VALUE"), param("DATE", "20170218")]))
    );
}

#[test]
fn parse_property() {
    assert_eq!(property("KEY:VALUE\n"), Ok(("", prop("KEY", "VALUE", vec![]))));

    assert_eq!(
        property("KEY;foo=bar:VALUE\n"),
        Ok(("", prop("KEY", "VALUE", vec![param("foo", "bar")])))
    );
    assert_eq!(
        property("KEY;foo=bar:VALUE space separated\n"),
        Ok(("", prop("KEY", "VALUE space separated", vec![param("foo", "bar")])))
    );
    // the second physical line is a fold continuation: its break and its
    // single marker space are dropped when the logical line is rebuilt
    assert_eq!(
        property("KEY;foo=bar:VALUE\n newline separated\n"),
        Ok(("", prop("KEY", "VALUEnewline separated", vec![param("foo", "bar")])))
    );
}

#[test]
fn parse_property_with_breaks() {
    // every `\n ` pair is a fold: dropped entirely on unfolding
    let sample_0 = "DESCRIPTION:Hey, I'm gonna have a party\n BYOB: Bring your own beer.\n Hendri\n k\n";

    let expectation = prop(
        "DESCRIPTION",
        "Hey, I'm gonna have a partyBYOB: Bring your own beer.Hendrik",
        vec![],
    );

    assert_eq!(property(sample_0), Ok(("", expectation)));
}

#[test]
fn property_lookup_is_case_insensitive_first_match() {
    let (_, c) = component(
        "BEGIN:VEVENT\nSUMMARY;LANG=en:first\nsummary:second\nDTSTART:20170218\nEND:VEVENT\n",
    )
    .unwrap();
    let p = c.property("summary").unwrap();
    assert_eq!(p.val, "first");
    assert_eq!(c.property("DTSTART").unwrap().val, "20170218");
    assert_eq!(c.property("MISSING"), None);
    let q = p.parameter("lang").unwrap();
    assert_eq!(q.val, "en");
    assert_eq!(p.parameter("VALUE"), None);
}

#[test]
fn parse_property_list() {
    assert_eq!(
        property_list("KEY;foo=bar:VALUE\nKEY;foo=bar; DATE=20170218:VALUE\n"),
        Ok((
            "",
            vec![
                prop("KEY", "VALUE", vec![param("foo", "bar")]),
                prop("KEY", "VALUE", vec![param("foo", "bar"), param("DATE", "20170218")]),
            ]
        ))
    );
    assert_eq!(
        property_list("KEY;foo=bar:VALUE\nKEY;foo=bar;DATE=20170218:VALUE\n"),
        Ok((
            "",
            vec![
                prop("KEY", "VALUE", vec![param("foo", "bar")]),
                prop("KEY", "VALUE", vec![param("foo", "bar"), param("DATE", "20170218")]),
            ]
        ))
    );
    assert_eq!(property_list(""), Ok(("", vec![])));
}
