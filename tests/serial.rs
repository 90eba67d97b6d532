use bevcount::serial::{
    ends_with_ready_line, find_sentinel, first_arduino_port, is_arduino_manufacturer, is_terminal_input, mentions_arduino,
    Action, Event, Phase, Session,
};

#[test]
fn valid() {
    assert!(is_arduino_manufacturer(&Some("Arduino Mega XYZ testdata".into())));
}

#[test]
fn invalid() {
    assert!(!is_arduino_manufacturer(&Some("AtMega XYZ testdata".into())));
}

#[test]
fn none() {
    assert!(!is_arduino_manufacturer(&None));
}

#[test]
fn serial_valid() {
    assert!(is_terminal_input(Some("/> ")));
}

#[test]
fn serial_invalid() {
    assert!(!is_terminal_input(Some("\\> ")));
}

#[test]
fn serial_none() {
    assert!(!is_terminal_input(None));
}

#[test]
fn manufacturer_in_upper_case() {
    assert!(is_arduino_manufacturer(&Some("ARDUINO LLC".into())));
    assert!(!mentions_arduino("ARDUINO LLC"));
    assert!(mentions_arduino("arduino llc"));
    assert!(!mentions_arduino("ardu ino"));
}

#[test]
fn terminal_input_edges() {
    assert!(is_terminal_input(Some("/>")));
    assert!(!is_terminal_input(Some("/")));
    assert!(!is_terminal_input(Some("")));
    assert!(!is_terminal_input(Some(" />")));
}

fn chars(s: &str) -> Vec<char> {
    s.chars().collect()
}

#[test]
fn ready_line_is_the_last_line() {
    assert!(ends_with_ready_line(&chars("booting\n/> ")));
    assert!(ends_with_ready_line(&chars("booting\n/> \n")));
    assert!(ends_with_ready_line(&chars("/>")));
    assert!(!ends_with_ready_line(&chars("/> \nmore")));
    assert!(!ends_with_ready_line(&chars("")));
    assert!(!ends_with_ready_line(&chars("\n")));
}

#[test]
fn sentinel_is_found_first() {
    assert_eq!(find_sentinel(&chars("a${}%$b${}%$")), Some(4));
    assert_eq!(find_sentinel(&chars("%$")), Some(0));
    assert_eq!(find_sentinel(&chars("a${}%")), None);
    assert_eq!(find_sentinel(&chars("$%")), None);
}

#[test]
fn session_collects_a_dump() {
    let mut s = Session::new();
    assert!(matches!(s.step(Event::Data("hello\n/> ".into())), Action::Read));
    assert!(matches!(s.step(Event::ReadError), Action::Read));
    assert!(matches!(s.step(Event::Timeout), Action::RequestDump));
    assert_eq!(s.phase, Phase::AwaitingDump);
    assert!(s.buffer.is_empty());
    assert!(!s.received);
    assert!(matches!(s.step(Event::Timeout), Action::Read));
    assert!(matches!(s.step(Event::Data("a${\"x\":1}".into())), Action::Read));
    match s.step(Event::Data("%$tail".into())) {
        Action::Finish(dump) => assert_eq!(dump, "a${\"x\":1}%$"),
        other => panic!("unexpected {:?}", other),
    }
    assert_eq!(s.phase, Phase::Complete);
    assert!(s.is_done());
}

#[test]
fn session_times_out_mid_dump() {
    let mut s = Session::new();
    assert!(matches!(s.step(Event::Data("/> ".into())), Action::Read));
    assert!(matches!(s.step(Event::Timeout), Action::RequestDump));
    assert!(matches!(s.step(Event::Data("a${\"x\":".into())), Action::Read));
    assert!(matches!(s.step(Event::Timeout), Action::Fail));
    assert_eq!(s.phase, Phase::Failed);
    assert!(s.is_done());
}

#[test]
fn session_waits_for_ready_without_failing() {
    let mut s = Session::new();
    for _ in 0..100 {
        assert!(matches!(s.step(Event::Timeout), Action::Read));
        assert_eq!(s.phase, Phase::AwaitingReady);
    }
    assert!(matches!(s.step(Event::Data("still booting".into())), Action::Read));
    for _ in 0..100 {
        assert!(matches!(s.step(Event::Timeout), Action::Read));
        assert_eq!(s.phase, Phase::AwaitingReady);
    }
    assert!(!s.is_done());
}

#[test]
fn first_vendor_port_is_picked() {
    let ports: Vec<Option<Option<String>>> = vec![
        None,
        Some(None),
        Some(Some("FTDI".to_string())),
        Some(Some("Arduino (www.arduino.cc)".to_string())),
        Some(Some("arduino".to_string())),
    ];
    assert_eq!(first_arduino_port(&ports), Some(3));
    assert_eq!(first_arduino_port(&ports[..3].to_vec()), None);
    assert_eq!(first_arduino_port(&Vec::new()), None);
}
