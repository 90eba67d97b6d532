use bevcount::parse::{parse, parse_dict, Error};
use bevcount::Beverage;

#[test]
fn parse_two_files() {
    let src = r#"Alc_1.txt$
{
  "Beers": 0,
  "Shots": 0,
  "Longdrinks": 2,
  "Non alcoholic": 5
}%Alc_2.txt$
{
  "Beers": 0,
  "Shots": 0,
  "Longdrinks": 0,
  "Non alcoholic": 1
}%"#;
    let parsed = parse(src).unwrap();
    assert_eq!(2, parsed.len());
    let first = parsed.get("Alc_1.txt").unwrap();
    assert_eq!(4, first.len());
    assert!(first.contains(&Beverage::new("Beers".into(), 0)));
    assert!(first.contains(&Beverage::new("Shots".into(), 0)));
    assert!(first.contains(&Beverage::new("Longdrinks".into(), 2)));
    assert!(first.contains(&Beverage::new("Non alcoholic".into(), 5)));
    let second = parsed.get("Alc_2.txt").unwrap();
    assert_eq!(4, second.len());
    assert!(second.contains(&Beverage::new("Beers".into(), 0)));
    assert!(second.contains(&Beverage::new("Shots".into(), 0)));
    assert!(second.contains(&Beverage::new("Longdrinks".into(), 0)));
    assert!(second.contains(&Beverage::new("Non alcoholic".into(), 1)));
}

#[test]
fn parse_compact_two_files() {
    let src = "Alc_1.txt$\n{\"Beers\":0,\"Shots\":0,\"Longdrinks\":2,\"Non alcoholic\":5}%Alc_2.txt$\n{\"Beers\":0,\"Shots\":0,\"Longdrinks\":0,\"Non alcoholic\":1}%";
    let parsed = parse(src).unwrap();
    assert_eq!(2, parsed.len());
    let first = parsed.get("Alc_1.txt").unwrap();
    assert_eq!(4, first.len());
    assert!(first.contains(&Beverage::new("Longdrinks".into(), 2)));
    let second = parsed.get("Alc_2.txt").unwrap();
    assert_eq!(4, second.len());
    assert!(second.contains(&Beverage::new("Non alcoholic".into(), 1)));
    assert_eq!(parsed.names(), &vec!["Alc_1.txt".to_string(), "Alc_2.txt".to_string()]);
}

#[test]
fn parse_trailing_marker_adds_nothing() {
    let parsed = parse("a${\"x\":3}%b${\"y\":4,\"z\":5}%$").unwrap();
    assert_eq!(2, parsed.len());
    assert_eq!(parsed.get("a").unwrap(), &vec![Beverage::new("x".into(), 3)]);
    assert_eq!(2, parsed.get("b").unwrap().len());
    assert!(parsed.get("").is_none());
}

#[test]
fn parse_empty_dump() {
    let parsed = parse("").unwrap();
    assert_eq!(0, parsed.len());
    assert!(parsed.names().is_empty());
}

#[test]
fn parse_later_record_replaces_earlier() {
    let parsed = parse("a${\"x\":1,\"y\":2}%a${\"z\":7}%$").unwrap();
    assert_eq!(1, parsed.len());
    assert_eq!(parsed.get("a").unwrap(), &vec![Beverage::new("z".into(), 7)]);
    assert_eq!(parsed.names().len(), 1);
}

#[test]
fn parse_percent_in_name_is_rejected() {
    match parse("abc%") {
        Err(Error::UnexpectedDelimiter(c)) => assert_eq!(c, '%'),
        other => panic!("unexpected {:?}", other.map(|t| t.len())),
    }
    match parse("a${\"x\":1}%%") {
        Err(Error::UnexpectedDelimiter(c)) => assert_eq!(c, '%'),
        other => panic!("unexpected {:?}", other.map(|t| t.len())),
    }
}

#[test]
fn parse_dollar_in_payload_is_rejected() {
    match parse("a${\"x\":1$}%") {
        Err(Error::UnexpectedDelimiter(c)) => assert_eq!(c, '$'),
        other => panic!("unexpected {:?}", other.map(|t| t.len())),
    }
}

#[test]
fn parse_bad_payload_is_rejected() {
    assert!(matches!(parse("a${\"x\":-1}%"), Err(Error::PayloadDecode(_))));
    assert!(matches!(parse("a${\"x\":1}%b${\"y\":\"two\"}%c${\"z\":3}%"), Err(Error::PayloadDecode(_))));
    assert!(matches!(parse("a$not json%"), Err(Error::PayloadDecode(_))));
    assert!(matches!(parse("a$[1,2]%"), Err(Error::PayloadDecode(_))));
}

#[test]
fn parse_twice_gives_equal_tables() {
    let src = "k1${\"a\":1,\"b\":2,\"c\":3}%k2${\"d\":4}%$";
    let t1 = parse(src).unwrap();
    let t2 = parse(src).unwrap();
    assert_eq!(t1.names(), t2.names());
    for name in t1.names() {
        let a = t1.get(name).unwrap();
        let b = t2.get(name).unwrap();
        assert_eq!(a.len(), b.len());
        for item in a {
            assert!(b.contains(item));
        }
    }
}

#[test]
fn parse_dict_reads_counts() {
    let items = parse_dict("{\"Beers\": 12, \"Shots\": 0}").unwrap();
    assert_eq!(items.len(), 2);
    assert!(items.contains(&Beverage::new("Beers".into(), 12)));
    assert!(items.contains(&Beverage::new("Shots".into(), 0)));
    assert!(matches!(parse_dict("{\"Beers\": 1.5}"), Err(Error::PayloadDecode(_))));
    assert!(parse_dict("{}").unwrap().is_empty());
}

#[test]
fn total_count_sums_all_groups() {
    let src = "Alc_1.txt$\n{\"Beers\":0,\"Shots\":0,\"Longdrinks\":2,\"Non alcoholic\":5}%Alc_2.txt$\n{\"Beers\":0,\"Shots\":0,\"Longdrinks\":0,\"Non alcoholic\":1}%";
    assert_eq!(parse(src).unwrap().total_count(), Some(8));
    assert_eq!(parse("").unwrap().total_count(), Some(0));
}

#[test]
fn total_count_reports_overflow() {
    let big = format!("a${{\"x\":{},\"y\":1}}%", usize::MAX);
    assert_eq!(parse(&big).unwrap().total_count(), None);
    let max = format!("a${{\"x\":{}}}%b${{\"y\":0}}%", usize::MAX);
    assert_eq!(parse(&max).unwrap().total_count(), Some(usize::MAX));
}
