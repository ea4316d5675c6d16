use daynotes::calendar::Day;

#[test]
fn parse_reads_a_date() {
    let day = Day::parse("2024-01-01").unwrap();
    assert_eq!(day.ordinal(), 738_886);
    assert_eq!(Day::parse("1970-01-01").unwrap().ordinal(), 719_163);
    assert_eq!(Day::parse("0001-01-01").unwrap().ordinal(), 1);
}

#[test]
fn parse_refuses_what_is_no_date() {
    assert_eq!(Day::parse(""), None);
    assert_eq!(Day::parse("2024-13-01"), None);
    assert_eq!(Day::parse("2023-02-29"), None);
    assert_eq!(Day::parse("2024/01/01"), None);
    assert_eq!(Day::parse("2024-01-01 and more"), None);
}

#[test]
fn days_follow_each_other() {
    let a = Day::parse("2024-02-29").unwrap();
    let b = Day::parse("2024-03-01").unwrap();
    assert_eq!(a.ordinal() + 1, b.ordinal());
    assert!(a.is_before(&b));
    assert!(b.is_after(&a));
    assert!(!a.is_after(&b));
    assert!(!a.is_before(&a));
}

#[test]
fn to_text_prints_the_date() {
    let day = Day::parse("2024-03-01").unwrap();
    assert_eq!(day.to_text(), Some("2024-03-01".to_string()));
    assert_eq!(Day::from_ordinal(1).unwrap().to_text(), Some("0001-01-01".to_string()));
    assert_eq!(Day::from_ordinal(99_999_999).unwrap().to_text(), None);
}

#[test]
fn from_ordinal_keeps_to_the_limit() {
    assert_eq!(Day::from_ordinal(738_886), Day::parse("2024-01-01"));
    assert!(Day::from_ordinal(100_000_000).is_none());
    assert!(Day::from_ordinal(-100_000_000).is_none());
    assert!(Day::from_ordinal(-99_999_999).is_some());
}
