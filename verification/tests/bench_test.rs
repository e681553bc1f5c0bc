use lemmalog::{
    context_with_history, date_label, date_order_rules, edge_history, is_date_shaped,
    latest_timestamp, latest_timestamp_checked, parse_date, parse_date_checked, session_date_key,
    session_number, session_transcript, EdgeRow, Sessions, Turn,
};

fn s(x: &str) -> String {
    x.to_string()
}

#[test]
fn parse_date_minutes() {
    // The documented form: the time is the word after the weekday.
    assert_eq!(parse_date("2023/04/10 (Mon) 17:50"), ((((2023 * 366 + 4 * 31 + 10) * 24) + 17) * 60) + 50);
    assert_eq!(parse_date("2023/04/10 (Mon) 17:50"), 1066395950);
    assert_eq!(parse_date("2023/04/10\t(Mon)\t17:50"), 1066395950);
    // With four or more words the time is the fourth word.
    assert_eq!(parse_date("2023/04/10 (Mon) at 17:50"), 1066395950);
    assert_eq!(parse_date("2023/04/10 (Mon) at 17:50 UTC"), 1066395950);
    // With fewer than three words there is no time.
    assert_eq!(parse_date("2023/04/10 17:50"), (2023 * 366 + 4 * 31 + 10) * 24 * 60);
    assert_eq!(parse_date("2023/04/10"), (2023 * 366 + 4 * 31 + 10) * 24 * 60);
    assert_eq!(parse_date(""), 0);
    // Pieces that are not numbers are dropped, so 4 becomes the year.
    assert_eq!(parse_date("x/4/y (Mon) 1:2"), ((4 * 366 * 24) + 1) * 60 + 2);
}

#[test]
fn parse_date_is_monotonic() {
    assert!(parse_date("2023/04/10 (Mon) 17:50") < parse_date("2023/04/10 (Mon) 17:51"));
    assert!(parse_date("2023/04/10 (Mon) 23:59") < parse_date("2023/04/11 (Tue) 00:00"));
    assert!(parse_date("2023/01/31 (Tue) 23:59") < parse_date("2023/02/01 (Wed) 00:00"));
    assert!(parse_date("2023/12/25 (Mon) 23:59") < parse_date("2024/01/01 (Mon) 00:00"));
}

#[test]
fn parse_date_late_december_reaches_next_january() {
    // Years count 366 days and months 31, so the last days of December
    // reach past the first of January of the next year.
    assert!(parse_date("2023/12/31 (Sun) 00:00") > parse_date("2024/01/01 (Mon) 00:00"));
}

#[test]
fn parse_date_time_of_day_adds_minutes() {
    assert_eq!(parse_date("2023/04/10 (Mon) 17:50"), parse_date("2023/04/10 (Mon) 0:0") + 17 * 60 + 50);
}

#[test]
fn parse_date_checked_overflow() {
    assert_eq!(parse_date_checked("9223372036854775807/1/1 (Mon) 1:1"), None);
    assert_eq!(parse_date_checked("2023/04/10 (Mon) 17:50"), Some(1066395950));
    assert_eq!(latest_timestamp_checked(&vec![s("2023/04/10 (Mon) 17:50"), s("9223372036854775807/1/1")]), None);
    assert_eq!(latest_timestamp_checked(&vec![s("2023/04/10 (Mon) 17:50")]), Some(1066395950));
    assert_eq!(latest_timestamp_checked(&vec![]), Some(0));
}

#[test]
fn session_keys() {
    assert_eq!(session_number("session_12"), Some(12));
    assert_eq!(session_number("session_+3"), Some(3));
    assert_eq!(session_number("session_12_date_time"), None);
    assert_eq!(session_number("session_"), None);
    assert_eq!(session_number("sess"), None);
    assert_eq!(session_number("speaker_a"), None);
    assert_eq!(session_date_key(7), "session_7_date_time");
    assert_eq!(session_number(&session_date_key(7)), None);
}

#[test]
fn session_transcripts() {
    let turns = vec![
        Turn { speaker: Some(s("Caroline")), text: Some(s("Hey Mel!")) },
        Turn { speaker: None, text: Some(s("hi")) },
        Turn { speaker: Some(s("Melanie")), text: None },
    ];
    assert_eq!(
        session_transcript(3, "1:56 pm on 8 May, 2023", &turns),
        "Session 3 on 1:56 pm on 8 May, 2023:\nCaroline: Hey Mel!\nuser: hi\nMelanie: \n"
    );
    assert_eq!(session_transcript(10, "", &vec![]), "Session 10 on :\n");
}

#[test]
fn sessions_in_numeric_order_last_wins() {
    let mut ss = Sessions::new();
    ss.insert(10, s("d10"), s("t10"));
    ss.insert(2, s("d2"), s("t2"));
    ss.insert(10, s("d10b"), s("t10b"));
    ss.insert(1, s("d1"), s("t1"));
    assert_eq!(ss.len(), 3);
    let es = ss.entries();
    let nums: Vec<usize> = es.iter().map(|e| e.0).collect();
    assert_eq!(nums, vec![1, 2, 10]);
    assert_eq!(es[2].1, "d10b");
    assert_eq!(es[2].2, "t10b");
}

#[test]
fn date_shapes() {
    assert!(is_date_shaped("2023-05-08"));
    assert!(!is_date_shaped("2023/05/08"));
    assert!(!is_date_shaped("2023-5-8"));
    assert!(!is_date_shaped("2023-05-08T"));
    assert!(is_date_shaped("abcd-ef-gh"));
}

#[test]
fn date_order_rules_first_key_per_relation() {
    let keys = vec![
        vec![s("a"), s("born"), s("2020-01-01")],
        vec![s("b"), s("born"), s("x")],
        vec![s("c"), s("likes"), s("2020-02-02")],
        vec![s("d"), s("x")],
        vec![s("e"), s("met"), s("soon")],
        vec![s("f"), s("met"), s("2021-03-03")],
    ];
    assert_eq!(
        date_order_rules(&keys),
        "dated(S, D) :- current(S, \"born\", D).\ndated(S, D) :- current(S, \"likes\", D).\n"
    );
    assert_eq!(date_order_rules(&vec![]), "");
}

#[test]
fn latest_session_timestamp() {
    assert_eq!(latest_timestamp(&vec![]), 0);
    let ds = vec![s("2023/04/10 (Mon) 17:50"), s("2023/05/01 (Mon) 09:00"), s("2023/04/20 (Thu) 10:00")];
    assert_eq!(latest_timestamp(&ds), parse_date("2023/05/01 (Mon) 09:00"));
    assert_eq!(latest_timestamp(&vec![s("-5/0/0")]), -5 * 366 * 24 * 60);
}

#[test]
fn date_labels() {
    let dates = vec![(s("5"), s("8 May 2023")), (s("7"), s("9 May 2023"))];
    assert_eq!(date_label(None, &dates), "open");
    assert_eq!(date_label(Some(0), &dates), "open");
    assert_eq!(date_label(Some(-3), &dates), "open");
    assert_eq!(date_label(Some(i64::MAX), &dates), "open");
    assert_eq!(date_label(Some(5), &dates), "8 May 2023");
    assert_eq!(date_label(Some(7), &dates), "9 May 2023");
    assert_eq!(date_label(Some(6), &dates), "6");
}

fn row(subject: &str, toks: &[&str], rel: &str, obj: &str) -> EdgeRow {
    EdgeRow {
        subject: s(subject),
        subject_tokens: toks.iter().map(|t| s(t)).collect(),
        relation: s(rel),
        object: s(obj),
        valid_from: Some(5),
        valid_to: Some(i64::MAX),
        asserted: Some(6),
    }
}

#[test]
fn edge_history_lines() {
    let dates = vec![(s("5"), s("8 May 2023"))];
    let rows = vec![
        row("caroline", &["caroline"], "likes", "painting"),
        row("mel", &["mel"], "likes", "camping"),
        row("bob_x", &["bob", "x"], "is", "here"),
    ];
    let q = vec![s("what"), s("does"), s("caroline"), s("like"), s("x")];
    let h = edge_history(&rows, &q, &dates);
    assert_eq!(h, "caroline --likes--> painting, 8 May 2023 .. open (asserted 6)\n");
    assert_eq!(edge_history(&rows, &vec![], &dates), "");
    let ctx = context_with_history(s("BASE"), &h);
    assert_eq!(
        ctx,
        "BASE\nEDGE HISTORY: subject --relation--> object, valid_from .. valid_to (asserted at):\ncaroline --likes--> painting, 8 May 2023 .. open (asserted 6)\n"
    );
    assert_eq!(context_with_history(s("BASE"), ""), "BASE");
}

#[test]
fn edge_history_stops_after_budget() {
    let long = "y".repeat(3000);
    let rows = vec![
        row("ann", &["ann"], "r", &long),
        row("ann", &["ann"], "r", "short"),
    ];
    let h = edge_history(&rows, &vec![s("ann")], &vec![]);
    assert_eq!(h, format!("ann --r--> {long}, 5 .. open (asserted 6)\n"));
}
