use calories::dispatch::{parse_u32, CliHandler, Command, Output, Response};
use calories::json::{parse_data, render_data};
use calories::store::{is_date_key, CaloriesData, Data, StorageError};

fn handler_with(content: Option<&str>) -> CliHandler {
    let cd = CaloriesData::new(String::from("data.json"), content.map(String::from))
        .expect("content should parse");
    CliHandler::new(cd)
}

fn args(list: &[&str]) -> Vec<String> {
    list.iter().map(|s| s.to_string()).collect()
}

const DAY: &str = "2024-01-15";

#[test]
fn round_trip_of_rendered_documents() {
    let mut d = Data::new();
    d.set_calories_by_date(DAY, vec![300, 450, 120]);
    d.set_calories_by_date("2024-01-16", vec![]);
    d.set_calories_by_date("2024-01-17", vec![4294967295]);
    let text = render_data(&d);
    let back = parse_data(&text).expect("rendered document must parse");
    assert_eq!(back.len(), 3);
    assert_eq!(
        back.get_calories_by_date(DAY),
        Some(&vec![300, 450, 120])
    );
    assert_eq!(back.get_calories_by_date("2024-01-16"), Some(&vec![]));
    assert_eq!(
        back.get_calories_by_date("2024-01-17"),
        Some(&vec![4294967295])
    );
    assert_eq!(render_data(&back), text);
}

#[test]
fn round_trip_of_empty_document() {
    let d = Data::new();
    let text = render_data(&d);
    assert_eq!(text, "{}");
    let back = parse_data(&text).expect("empty document must parse");
    assert_eq!(back.len(), 0);
}

#[test]
fn add_creates_single_element_list() {
    let mut h = handler_with(None);
    let r = h.handle_for_date(DAY, args(&["add", "500"]));
    assert_eq!(
        r,
        Response { output: Output::Total(500), persist: true }
    );
    assert_eq!(
        h.store().data.get_calories_by_date(DAY),
        Some(&vec![500])
    );
}

#[test]
fn add_appends_preserving_order() {
    let mut h = handler_with(Some("{\"2024-01-15\": [300, 200]}"));
    let r = h.handle_for_date(DAY, args(&["add", "100"]));
    assert_eq!(
        r,
        Response { output: Output::Total(600), persist: true }
    );
    assert_eq!(
        h.store().data.get_calories_by_date(DAY),
        Some(&vec![300, 200, 100])
    );
}

#[test]
fn add_without_number_changes_nothing() {
    let mut h = handler_with(None);
    let r = h.handle_for_date(DAY, args(&["add"]));
    assert_eq!(
        r,
        Response { output: Output::AddUsage, persist: false }
    );
    let r2 = h.handle_for_date(DAY, args(&["add", "12x"]));
    assert_eq!(
        r2,
        Response { output: Output::AddUsage, persist: false }
    );
    assert_eq!(h.store().data.get_calories_by_date(DAY), None);
}

#[test]
fn pop_on_absent_date_is_a_noop() {
    let mut h = handler_with(None);
    let r = h.handle_for_date(DAY, args(&["pop"]));
    assert_eq!(
        r,
        Response { output: Output::Total(0), persist: true }
    );
    assert_eq!(h.store().data.get_calories_by_date(DAY), None);
}

#[test]
fn pop_on_empty_list_is_a_noop() {
    let mut h = handler_with(Some("{\"2024-01-15\": []}"));
    let r = h.handle_for_date(DAY, args(&["pop"]));
    assert_eq!(
        r,
        Response { output: Output::Total(0), persist: true }
    );
    assert_eq!(h.store().data.get_calories_by_date(DAY), Some(&vec![]));
}

#[test]
fn repeated_pop_empties_the_list() {
    let mut h = handler_with(Some("{\"2024-01-15\": [1, 2, 3]}"));
    let r1 = h.handle_for_date(DAY, args(&["pop"]));
    assert_eq!(r1.output, Output::Total(3));
    assert_eq!(
        h.store().data.get_calories_by_date(DAY),
        Some(&vec![1, 2])
    );
    let r2 = h.handle_for_date(DAY, args(&["pop"]));
    assert_eq!(r2.output, Output::Total(1));
    let r3 = h.handle_for_date(DAY, args(&["pop"]));
    assert_eq!(r3.output, Output::Total(0));
    assert_eq!(h.store().data.get_calories_by_date(DAY), Some(&vec![]));
}

#[test]
fn clear_removes_the_date_entirely() {
    let mut h = handler_with(Some("{\"2024-01-15\": [300]}"));
    let r = h.handle_for_date(DAY, args(&["clear"]));
    assert_eq!(
        r,
        Response { output: Output::Total(0), persist: true }
    );
    assert_eq!(h.store().data.get_calories_by_date(DAY), None);
    let list = h.handle_for_date(DAY, args(&["list"]));
    assert_eq!(list.output, Output::Total(0));
}

#[test]
fn list_reports_the_arithmetic_sum() {
    let mut h = handler_with(Some("{\"2024-01-15\": [300, 450, 120]}"));
    let r = h.handle_for_date(DAY, args(&["list"]));
    assert_eq!(
        r,
        Response { output: Output::Total(870), persist: false }
    );
    let r2 = h.handle_for_date("2024-01-16", args(&["ls"]));
    assert_eq!(r2.output, Output::Total(0));
}

#[test]
fn list_details_reports_entries_and_sum() {
    let mut h = handler_with(Some("{\"2024-01-15\": [300, 200]}"));
    let r = h.handle_for_date(DAY, args(&["listdetails"]));
    assert_eq!(
        r,
        Response { output: Output::Details(vec![300, 200], 500), persist: false }
    );
    let r2 = h.handle_for_date("2024-01-16", args(&["-ld"]));
    assert_eq!(r2.output, Output::Details(vec![], 0));
}

#[test]
fn sums_beyond_u32_stay_exact() {
    let mut h = handler_with(None);
    h.handle_for_date(DAY, args(&["add", "4294967295"]));
    h.handle_for_date(DAY, args(&["add", "4294967295"]));
    let r = h.handle_for_date(DAY, args(&["list"]));
    assert_eq!(r.output, Output::Total(8589934590));
}

#[test]
fn unknown_command_changes_nothing() {
    let mut h = handler_with(Some("{\"2024-01-15\": [300]}"));
    let r = h.handle_for_date(DAY, args(&["foo"]));
    assert_eq!(
        r,
        Response { output: Output::Unknown, persist: false }
    );
    assert_eq!(
        h.store().data.get_calories_by_date(DAY),
        Some(&vec![300])
    );
    let none = h.handle_for_date(DAY, args(&[]));
    assert_eq!(none.output, Output::Unknown);
}

#[test]
fn help_touches_no_state() {
    let mut h = handler_with(None);
    let r = h.handle_for_date(DAY, args(&["help"]));
    assert_eq!(
        r,
        Response { output: Output::Help, persist: false }
    );
    let r2 = h.handle_for_date(DAY, args(&["-h"]));
    assert_eq!(r2.output, Output::Help);
}

#[test]
fn handle_args_uses_the_real_clock() {
    let mut h = handler_with(None);
    let r = h.handle_args(args(&["help"]));
    assert_eq!(
        r,
        Some(Response { output: Output::Help, persist: false })
    );
}

#[test]
fn malformed_documents_are_refused() {
    for text in [
        "",
        "[]",
        "{",
        "{}}",
        "{\"2024-01-15\": [01]}",
        "{\"2024-01-15\": [1] \"2024-01-16\": [2]}",
        "{\"2024-01-15\": [1], \"2024-01-15\": [2]}",
        "{\"not-a-date\": [1]}",
        "{\"2024-01-15\": [4294967296]}",
        "{\"2024-01-15\": [-1]}",
        "{\"2024-01-15\": [1.5]}",
        "{\"2024-01-15\": [1]} trailing",
    ] {
        let r = parse_data(text);
        assert!(
            matches!(r, Err(StorageError::MalformedDocument)),
            "should refuse: {text}"
        );
    }
}

#[test]
fn whitespace_variations_are_accepted() {
    let compact = parse_data("{\"2024-01-15\":[300,200]}").expect("compact");
    assert_eq!(
        compact.get_calories_by_date(DAY),
        Some(&vec![300, 200])
    );
    let spaced = parse_data(" \t\r\n{ \"2024-01-15\" : [ 300 , 200 ] } \n").expect("spaced");
    assert_eq!(
        spaced.get_calories_by_date(DAY),
        Some(&vec![300, 200])
    );
    let pretty = parse_data("{\n  \"2024-01-15\": [\n    300,\n    200\n  ]\n}").expect("pretty");
    assert_eq!(
        pretty.get_calories_by_date(DAY),
        Some(&vec![300, 200])
    );
}

#[test]
fn get_mut_edits_in_place() {
    let mut d = Data::new();
    d.set_calories_by_date(DAY, vec![300]);
    assert!(d.get_calories_by_date_mut("2024-01-16").is_none());
    if let Some(v) = d.get_calories_by_date_mut(DAY) {
        v.push(200);
    }
    assert_eq!(d.get_calories_by_date(DAY), Some(&vec![300, 200]));
}

#[test]
fn parse_args_knows_every_alias() {
    let cases: [(&str, Command); 12] = [
        ("add", Command::Add),
        ("-a", Command::Add),
        ("ls", Command::List),
        ("list", Command::List),
        ("-l", Command::List),
        ("listdetails", Command::ListDetails),
        ("-ld", Command::ListDetails),
        ("clear", Command::Clear),
        ("-c", Command::Clear),
        ("pop", Command::Pop),
        ("-p", Command::Pop),
        ("help", Command::Help),
    ];
    for (word, cmd) in cases {
        let (c, v) = CliHandler::parse_args(args(&[word, "42"]));
        assert_eq!(c, Some(cmd));
        assert_eq!(v, if cmd == Command::Add { Some(42) } else { None });
    }
    let (c, v) = CliHandler::parse_args(args(&["Add"]));
    assert_eq!(c, None);
    assert_eq!(v, None);
}

#[test]
fn numeric_arguments_parse_like_integers() {
    assert_eq!(parse_u32("0"), Some(0));
    assert_eq!(parse_u32("007"), Some(7));
    assert_eq!(parse_u32("+7"), Some(7));
    assert_eq!(parse_u32("4294967295"), Some(4294967295));
    assert_eq!(parse_u32("4294967296"), None);
    assert_eq!(parse_u32(""), None);
    assert_eq!(parse_u32("+"), None);
    assert_eq!(parse_u32("-1"), None);
    assert_eq!(parse_u32("1 2"), None);
}

#[test]
fn date_keys_have_exactly_the_iso_shape() {
    assert!(is_date_key("2024-01-15"));
    assert!(is_date_key("0000-00-00"));
    assert!(!is_date_key("2024-1-15"));
    assert!(!is_date_key("2024-01-15 "));
    assert!(!is_date_key("2024_01_15"));
    assert!(!is_date_key(""));
}
