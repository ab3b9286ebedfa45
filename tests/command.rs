use statusbot::command::{parse_addressed, parse_date_range};

#[test]
fn addressed_message_is_split_at_first_colon() {
    assert_eq!(
        parse_addressed("abot:   2016-01-01 to 2016-01-07"),
        Some((String::from("abot"), String::from("2016-01-01 to 2016-01-07")))
    );
    assert_eq!(
        parse_addressed("standups: done: a thing"),
        Some((String::from("standups"), String::from("done: a thing")))
    );
    assert_eq!(parse_addressed("no colon here"), None);
    assert_eq!(parse_addressed(": empty nick"), None);
}

#[test]
fn date_range_is_found_anywhere() {
    assert_eq!(
        parse_date_range("please 2016-01-01  to\t2016-01-07 thanks"),
        Some((String::from("2016-01-01"), String::from("2016-01-07")))
    );
    assert_eq!(parse_date_range("2016-01-01 to 2016-1-07"), None);
    assert_eq!(parse_date_range("2016-01-01to 2016-01-07"), None);
    assert_eq!(parse_date_range(""), None);
}

use statusbot::command::{decide, Action};

#[test]
fn decide_picks_the_action() {
    assert!(matches!(decide("standups: fixed bug 5"), Action::Store));
    match decide("abot: 2016-01-01 to 2016-01-07") {
        Action::Summarize(s, e) => {
            assert_eq!(s, "2016-01-01");
            assert_eq!(e, "2016-01-07");
        }
        other => panic!("unexpected {:?}", other),
    }
    assert!(matches!(decide("abot: hello"), Action::Ignore));
    assert!(matches!(decide("someone: 2016-01-01 to 2016-01-07"), Action::Ignore));
    assert!(matches!(decide("no address"), Action::Ignore));
}
