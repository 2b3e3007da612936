use calories::dispatch::{CliHandler, Output};
use calories::store::CaloriesData;

fn args(list: &[&str]) -> Vec<String> {
    list.iter().map(|s| s.to_string()).collect()
}

const DAY: &str = "2024-01-15";

#[test]
fn absent_file_then_add_five_hundred() {
    // No backing file yet: the store starts empty and the caller first
    // writes the empty document.
    let cd = CaloriesData::new(String::from("data.json"), None).expect("empty store");
    assert_eq!(cd.document(), "{}");
    let mut h = CliHandler::new(cd);
    let r = h.handle_for_date(DAY, args(&["add", "500"]));
    assert_eq!(r.output, Output::Total(500));
    assert!(r.persist);
    assert_eq!(
        h.store().document(),
        "{\n  \"2024-01-15\": [\n    500\n  ]\n}"
    );
}

#[test]
fn pop_rewrites_the_file_without_the_last_entry() {
    let cd = CaloriesData::new(
        String::from("data.json"),
        Some(String::from("{\"2024-01-15\": [300, 200]}")),
    )
    .expect("document parses");
    let mut h = CliHandler::new(cd);
    let r = h.handle_for_date(DAY, args(&["pop"]));
    assert_eq!(r.output, Output::Total(300));
    assert!(r.persist);
    assert_eq!(
        h.store().document(),
        "{\n  \"2024-01-15\": [\n    300\n  ]\n}"
    );
}

#[test]
fn clear_rewrites_the_file_as_empty() {
    let cd = CaloriesData::new(
        String::from("data.json"),
        Some(String::from("{\"2024-01-15\": [300]}")),
    )
    .expect("document parses");
    let mut h = CliHandler::new(cd);
    let r = h.handle_for_date(DAY, args(&["clear"]));
    assert_eq!(r.output, Output::Total(0));
    assert!(r.persist);
    assert_eq!(h.store().document(), "{}");
}

#[test]
fn unrecognized_command_mutates_no_file() {
    let text = String::from("{\"2024-01-15\": [300]}");
    let cd = CaloriesData::new(String::from("data.json"), Some(text)).expect("document parses");
    let before = cd.document();
    let mut h = CliHandler::new(cd);
    let r = h.handle_for_date(DAY, args(&["foo"]));
    assert_eq!(r.output, Output::Unknown);
    assert!(!r.persist);
    assert_eq!(h.store().document(), before);
}
