use flounder::records::twtxt::{
    later, newest_first, read_statuses, StatusTime, TwtxtStatus,
};

#[test]
fn twtxt_test_parse_status() {
    let new_status = TwtxtStatus::new(
        "guy".to_owned(),
        "1996-12-19T16:39:57-08:00\they whats up".to_owned(),
    )
    .unwrap();
    assert_eq!(&new_status.username, "guy");
    assert_eq!(&new_status.text, "hey whats up");
}

#[test]
fn twtxt_test_invalid_status() {
    let new_status = TwtxtStatus::new(
        "guy".to_owned(),
        "1996-19T16:39:57-08:00\they whats up".to_owned(),
    );
    assert!(new_status.is_none())
}

#[test]
fn status_holds_the_time_in_utc() {
    let status = TwtxtStatus::new_at(
        "guy".to_string(),
        "1996-12-19T16:39:57.25-08:00\thi",
        851_042_397 + 90,
    )
    .unwrap();
    assert_eq!(
        status.date,
        StatusTime {
            seconds: 851_042_397,
            nanos: 250_000_000
        }
    );
    assert_eq!(status.time_ago, "1 minutes ago");
}

#[test]
fn status_needs_a_tab() {
    assert!(TwtxtStatus::new_at("guy".to_string(), "1996-12-19T16:39:57-08:00 hi", 0).is_none());
    assert!(TwtxtStatus::new_at("guy".to_string(), "", 0).is_none());
}

#[test]
fn status_text_is_what_follows_the_first_tab() {
    let status =
        TwtxtStatus::new_at("guy".to_string(), "1996-12-19T16:39:57Z\ta\tb", 0).unwrap();
    assert_eq!(status.text, "a\tb");
    let status = TwtxtStatus::new_at("guy".to_string(), "1996-12-19T16:39:57Z\t", 0).unwrap();
    assert_eq!(status.text, "");
}

#[test]
fn status_text_is_cut_to_what_280_bytes_hold() {
    let long = "x".repeat(300);
    let line = format!("1996-12-19T16:39:57Z\t{}", long);
    let status = TwtxtStatus::new_at("guy".to_string(), &line, 0).unwrap();
    assert_eq!(status.text, "x".repeat(280));
    let wide = "\u{e9}".repeat(150);
    let line = format!("1996-12-19T16:39:57Z\tx{}", wide);
    let status = TwtxtStatus::new_at("guy".to_string(), &line, 0).unwrap();
    assert_eq!(status.text, format!("x{}", "\u{e9}".repeat(139)));
}

#[test]
fn with_time_tells_how_long_ago() {
    let date = StatusTime {
        seconds: 1000,
        nanos: 0,
    };
    let status = TwtxtStatus::with_time("guy".to_string(), "hi", date, 1000 + 86400 * 3);
    assert_eq!(status.time_ago, "3 days ago");
    assert_eq!(status.username, "guy");
    assert_eq!(status.text, "hi");
    assert_eq!(status.date, date);
}

#[test]
fn read_statuses_passes_over_lines_that_hold_none() {
    let mut statuses = Vec::new();
    let text = "# my statuses\n1996-12-19T16:39:57Z\tfirst\r\nnot a status\n\n1997-01-01T00:00:00Z\tsecond";
    read_statuses(&mut statuses, "guy", text, 0);
    let texts: Vec<&str> = statuses.iter().map(|s| s.text.as_str()).collect();
    assert_eq!(texts, vec!["first", "second"]);
    read_statuses(&mut statuses, "gal", "1998-01-01T00:00:00Z\tthird", 0);
    assert_eq!(statuses.len(), 3);
    assert_eq!(statuses[2].username, "gal");
}

#[test]
fn later_orders_by_seconds_and_then_by_nanoseconds() {
    let a = StatusTime { seconds: 2, nanos: 0 };
    let b = StatusTime { seconds: 1, nanos: 9 };
    let c = StatusTime { seconds: 1, nanos: 10 };
    assert!(later(&a, &b));
    assert!(!later(&b, &a));
    assert!(later(&c, &b));
    assert!(!later(&b, &b));
}

#[test]
fn newest_first_puts_the_latest_first_and_keeps_all() {
    let mut statuses = Vec::new();
    let text = "1996-01-01T00:00:00Z\told\n1999-01-01T00:00:00Z\tnew\n1997-06-01T00:00:00Z\tmid\n1999-01-01T00:00:00Z\tnew too";
    read_statuses(&mut statuses, "guy", text, 0);
    let sorted = newest_first(statuses);
    let mut texts: Vec<&str> = sorted.iter().map(|s| s.text.as_str()).collect();
    assert_eq!(&texts[2..], ["mid", "old"]);
    texts.truncate(2);
    texts.sort();
    assert_eq!(texts, vec!["new", "new too"]);
    assert!(newest_first(Vec::new()).is_empty());
}
