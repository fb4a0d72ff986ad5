use klask::output::{
    decode, progress_bar, progress_bar_with_id, progress_bar_with_text_id, strip_newline,
    DecodeError, Output, OutputType, Widget,
};
use klask::protocol::MAGIC;

fn text(s: &str) -> (u64, OutputType) {
    (0, OutputType::Text(s.to_string()))
}

fn bar(id: u64, description: &str, value: &str) -> (u64, OutputType) {
    (id, OutputType::ProgressBar(description.to_string(), value.to_string()))
}

fn message(id: u64, description: &str, value: &str) -> String {
    OutputType::ProgressBar(description.to_string(), value.to_string()).send(id)
}

#[test]
fn new_log_is_empty() {
    assert!(Output::new().entries().is_empty());
}

#[test]
fn plain_text_is_one_entry() {
    let mut log = Output::new();
    log.parse("hello world\n").unwrap();
    assert_eq!(log.entries(), &vec![text("hello world\n")]);
}

#[test]
fn plain_text_is_added_behind_what_is_there() {
    let mut log = Output::new();
    log.parse("one").unwrap();
    log.parse("two").unwrap();
    assert_eq!(log.entries(), &vec![text("one"), text("two")]);
}

#[test]
fn empty_chunk_adds_nothing() {
    let mut log = Output::new();
    log.parse("").unwrap();
    assert!(log.entries().is_empty());
}

#[test]
fn message_on_the_wire() {
    assert_eq!(
        message(42, "Building", "0.37"),
        "\u{5FFFE}42\u{5FFFE}progress-bar\u{5FFFE}Building\u{5FFFE}0.37\u{5FFFE}\n"
    );
}

#[test]
fn text_on_the_wire_is_itself() {
    assert_eq!(OutputType::Text("as it is\n".to_string()).send(7), "as it is\n");
}

#[test]
fn encode_then_decode() {
    let wire = message(42, "Building", &0.37f32.to_string());
    let mut log = Output::new();
    log.parse(&wire).unwrap();
    assert_eq!(log.entries(), &vec![bar(42, "Building", "0.37")]);
    match &log.entries()[0].1 {
        OutputType::ProgressBar(description, value) => {
            assert_eq!(description, "Building");
            assert_eq!(value.parse::<f32>(), Ok(0.37f32));
        }
        other => panic!("{:?}", other),
    }
}

#[test]
fn largest_identity_survives_the_wire() {
    let wire = message(u64::MAX, "d", "1");
    assert_eq!(decode(&wire), Ok(vec![bar(u64::MAX, "d", "1")]));
}

#[test]
fn same_identity_updates_in_place() {
    let mut log = Output::new();
    log.parse(&message(9, "first", "0.1")).unwrap();
    log.parse(&message(9, "second", "0.9")).unwrap();
    assert_eq!(log.entries(), &vec![bar(9, "second", "0.9")]);
}

#[test]
fn same_identity_twice_in_one_chunk() {
    let mut log = Output::new();
    let chunk = format!("{}{}", message(9, "first", "0.1"), message(9, "second", "0.9"));
    log.parse(&chunk).unwrap();
    assert_eq!(log.entries(), &vec![bar(9, "second", "0.9")]);
}

#[test]
fn update_keeps_the_first_position() {
    let mut log = Output::new();
    log.parse("before\n").unwrap();
    log.parse(&message(5, "load", "0.25")).unwrap();
    log.parse("between\n").unwrap();
    log.parse(&message(6, "other", "0.5")).unwrap();
    log.parse(&message(5, "load", "0.75")).unwrap();
    assert_eq!(
        log.entries(),
        &vec![
            text("before\n"),
            bar(5, "load", "0.75"),
            text("between\n"),
            bar(6, "other", "0.5"),
        ]
    );
}

#[test]
fn interleaving_keeps_the_order() {
    let mut log = Output::new();
    let chunk = format!("text one\n{}text two\n", message(3, "Working", "0.5"));
    log.parse(&chunk).unwrap();
    assert_eq!(
        log.entries(),
        &vec![text("text one\n"), bar(3, "Working", "0.5"), text("text two\n")]
    );
    log.parse(&message(3, "Done", "1")).unwrap();
    assert_eq!(
        log.entries(),
        &vec![text("text one\n"), bar(3, "Done", "1"), text("text two\n")]
    );
}

#[test]
fn missing_value_is_no_failure() {
    let chunk = format!("{m}7{m}progress-bar{m}half done", m = MAGIC);
    let mut log = Output::new();
    assert_eq!(log.parse(&chunk), Ok(()));
    assert_eq!(log.entries(), &vec![bar(7, "half done", "")]);
    match &log.entries()[0].1 {
        OutputType::ProgressBar(_, value) => assert!(value.parse::<f32>().is_err()),
        other => panic!("{:?}", other),
    }
}

#[test]
fn missing_description_is_empty() {
    let chunk = format!("{m}7{m}progress-bar", m = MAGIC);
    assert_eq!(decode(&chunk), Ok(vec![bar(7, "", "")]));
}

#[test]
fn value_that_is_no_number_is_kept() {
    let chunk = format!("{m}7{m}progress-bar{m}d{m}soon{m}\n", m = MAGIC);
    assert_eq!(decode(&chunk), Ok(vec![bar(7, "d", "soon")]));
}

#[test]
fn unknown_tag_is_an_error_and_leaves_the_log() {
    let mut log = Output::new();
    log.parse("kept").unwrap();
    let chunk = format!("new text{m}7{m}spinner{m}d{m}0.5{m}\n", m = MAGIC);
    assert_eq!(log.parse(&chunk), Err(DecodeError::UnknownTag));
    assert_eq!(log.entries(), &vec![text("kept")]);
    assert_eq!(decode(&chunk), Err(DecodeError::UnknownTag));
}

#[test]
fn unknown_tag_behind_a_good_message_is_an_error() {
    let chunk = format!("{}{m}8{m}gauge", message(7, "d", "0.5"), m = MAGIC);
    assert_eq!(decode(&chunk), Err(DecodeError::UnknownTag));
}

#[test]
fn field_that_is_no_identity_is_dropped() {
    let chunk = format!("pre{m}xyz{m}\nafter", m = MAGIC);
    assert_eq!(decode(&chunk), Ok(vec![text("pre"), text("after")]));
}

#[test]
fn tag_behind_a_field_that_is_no_identity_is_text() {
    let chunk = format!("{m}seven{m}spinner{m}12", m = MAGIC);
    assert_eq!(decode(&chunk), Ok(vec![text("spinner")]));
}

#[test]
fn identity_with_nothing_behind_it_adds_nothing() {
    let chunk = format!("{m}12", m = MAGIC);
    assert_eq!(decode(&chunk), Ok(vec![]));
}

#[test]
fn one_line_feed_is_taken_off() {
    let chunk = format!("{}\nsecond line", message(1, "d", "0"));
    assert_eq!(decode(&chunk), Ok(vec![bar(1, "d", "0"), text("\nsecond line")]));
}

#[test]
fn text_behind_a_message_without_line_feed_is_kept_whole() {
    let chunk = format!("{m}1{m}progress-bar{m}d{m}0{m}tail", m = MAGIC);
    assert_eq!(decode(&chunk), Ok(vec![bar(1, "d", "0"), text("tail")]));
}

#[test]
fn chunk_that_ends_with_the_last_marker() {
    let chunk = format!("{m}1{m}progress-bar{m}d{m}0{m}", m = MAGIC);
    assert_eq!(decode(&chunk), Ok(vec![bar(1, "d", "0")]));
}

#[test]
fn strip_newline_cases() {
    assert_eq!(strip_newline(""), "");
    assert_eq!(strip_newline("\n"), "");
    assert_eq!(strip_newline("\nabc"), "abc");
    assert_eq!(strip_newline("\n\nabc"), "\nabc");
    assert_eq!(strip_newline("abc\n"), "abc\n");
    assert_eq!(strip_newline("\u{e9}t\u{e9}"), "\u{e9}t\u{e9}");
}

#[test]
fn progress_bar_under_identity_zero_leaves_text_alone() {
    let mut log = Output::new();
    log.parse("hello").unwrap();
    log.parse(&message(0, "a", "0.5")).unwrap();
    assert_eq!(log.entries(), &vec![text("hello"), bar(0, "a", "0.5")]);
    log.parse("more").unwrap();
    log.parse(&message(0, "b", "0.75")).unwrap();
    assert_eq!(log.entries(), &vec![text("hello"), bar(0, "b", "0.75"), text("more")]);
}

#[test]
fn upsert_and_record() {
    let mut log = Output::new();
    log.upsert(4, "a".to_string(), "0".to_string());
    log.record(9, OutputType::Text("t".to_string()));
    log.record(4, OutputType::ProgressBar("b".to_string(), "1".to_string()));
    log.record(5, OutputType::ProgressBar("c".to_string(), "1".to_string()));
    log.upsert(0, "z".to_string(), "0".to_string());
    log.upsert(5, "d".to_string(), "0.5".to_string());
    assert_eq!(
        log.entries(),
        &vec![bar(4, "b", "1"), text("t"), bar(5, "d", "0.5"), bar(0, "z", "0")]
    );
}

#[test]
fn payload_parse_moves_behind_what_it_took() {
    let fields: Vec<String> =
        ["", "7", "progress-bar", "d", "0.5", "\n"].iter().map(|s| s.to_string()).collect();
    let mut at = 2;
    assert!(OutputType::knows_tag(&fields, at));
    assert_eq!(
        OutputType::parse(&fields, &mut at),
        Some(OutputType::ProgressBar("d".to_string(), "0.5".to_string()))
    );
    assert_eq!(at, 5);
    let mut at = 6;
    assert!(OutputType::knows_tag(&fields, at));
    assert_eq!(OutputType::parse(&fields, &mut at), None);
    assert_eq!(at, 6);
    let short: Vec<String> = ["progress-bar", "d"].iter().map(|s| s.to_string()).collect();
    let mut at = 0;
    assert_eq!(
        OutputType::parse(&short, &mut at),
        Some(OutputType::ProgressBar("d".to_string(), String::new()))
    );
    assert_eq!(at, 2);
}

#[test]
fn only_the_progress_tag_is_known() {
    let fields: Vec<String> =
        ["progress-bar", "spinner", "", "progress-bar "].iter().map(|s| s.to_string()).collect();
    assert!(OutputType::knows_tag(&fields, 0));
    assert!(!OutputType::knows_tag(&fields, 1));
    assert!(!OutputType::knows_tag(&fields, 2));
    assert!(!OutputType::knows_tag(&fields, 3));
    assert!(OutputType::knows_tag(&fields, 4));
}

#[test]
fn progress_bar_is_keyed_by_its_description() {
    let first = progress_bar("Static description", "0.25");
    let second = progress_bar("Static description", "0.5");
    let mut log = Output::new();
    log.parse(&first).unwrap();
    log.parse(&second).unwrap();
    assert_eq!(log.entries().len(), 1);
    assert_eq!(
        log.entries()[0].1,
        OutputType::ProgressBar("Static description".to_string(), "0.5".to_string())
    );
    log.parse(&progress_bar("Another", "0.1")).unwrap();
    assert_eq!(log.entries().len(), 2);
}

#[test]
fn progress_bar_with_id_is_keyed_by_its_id() {
    let mut log = Output::new();
    log.parse(&progress_bar_with_id("Progress", "step [1/2]", "0.5")).unwrap();
    log.parse(&progress_bar_with_id("Progress", "step [2/2]", "1")).unwrap();
    log.parse(&progress_bar_with_id(17u32, "other", "0")).unwrap();
    assert_eq!(log.entries().len(), 2);
    assert_eq!(
        log.entries()[0].1,
        OutputType::ProgressBar("step [2/2]".to_string(), "1".to_string())
    );
    assert_eq!(log.entries()[0].0, log_identity(&progress_bar("Progress", "0")));
}

fn log_identity(wire: &str) -> u64 {
    decode(wire).unwrap()[0].0
}

#[test]
fn update_draws_each_entry_in_order() {
    let mut log = Output::new();
    log.parse(&format!("plain{}", message(3, "Working", "0.5"))).unwrap();
    let widgets = log.update();
    assert_eq!(widgets.len(), 2);
    match &widgets[0] {
        Widget::Row(tokens) => assert_eq!(tokens.len(), 1),
        other => panic!("{:?}", other),
    }
    assert_eq!(
        widgets[1],
        Widget::ProgressBar {
            identity: 3,
            description: "Working".to_string(),
            value: "0.5".to_string()
        }
    );
}

#[test]
fn markers_alone_add_nothing() {
    let chunk = format!("{m}{m}{m}", m = MAGIC);
    assert_eq!(decode(&chunk), Ok(vec![]));
}

#[test]
fn progress_bar_is_a_message_under_the_hash_of_its_description() {
    let wire = progress_bar("Static description", "0.5");
    let entries = decode(&wire).unwrap();
    assert_eq!(entries.len(), 1);
    let identity = entries[0].0;
    assert_eq!(wire, message(identity, "Static description", "0.5"));
    assert_eq!(wire, progress_bar_with_id("Static description", "Static description", "0.5"));
}

#[test]
fn text_entries_are_never_touched_by_updates() {
    let mut log = Output::new();
    log.parse("first\n").unwrap();
    log.parse(&message(11, "bar", "0.1")).unwrap();
    log.parse("second\n").unwrap();
    for step in 2..10 {
        log.parse(&message(11, "bar", &format!("0.{}", step))).unwrap();
    }
    assert_eq!(log.entries(), &vec![text("first\n"), bar(11, "bar", "0.9"), text("second\n")]);
}

#[test]
fn text_id_names_one_bar_whatever_its_description() {
    let mut log = Output::new();
    log.parse(&progress_bar_with_text_id("Progress", "Dynamic description [1/2]", "0.5")).unwrap();
    log.parse("in between\n").unwrap();
    log.parse(&progress_bar_with_text_id("Progress", "Dynamic description [2/2]", "1")).unwrap();
    log.parse(&progress_bar_with_text_id("Other", "Dynamic description [2/2]", "0")).unwrap();
    let identity = log.entries()[0].0;
    assert_eq!(
        log.entries(),
        &vec![
            bar(identity, "Dynamic description [2/2]", "1"),
            text("in between\n"),
            bar(log.entries()[2].0, "Dynamic description [2/2]", "0"),
        ]
    );
    assert_ne!(identity, log.entries()[2].0);
    assert_eq!(
        progress_bar_with_text_id("Progress", "d", "0"),
        progress_bar_with_id("Progress", "d", "0")
    );
    assert_eq!(progress_bar("d", "0"), progress_bar_with_text_id("d", "d", "0"));
}
