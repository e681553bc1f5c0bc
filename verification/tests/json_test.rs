use lemmalog::{
    conversation_sessions, dates_to_json, parse_date, parse_dates, parse_json, sidecar_dates, Json,
};

fn s(x: &str) -> String {
    x.to_string()
}

const CONV: &str = r#"{
  "conversation": {
    "speaker_a": "Caroline",
    "session_2": [{"speaker": "Melanie", "text": "hi"}, {"text": 3}],
    "session_2_date_time": "2023/05/08 (Mon) 13:56",
    "session_1": [{"speaker": "Caroline", "text": "Hey Mel!"}],
    "session_1_date_time": "2023/05/07 (Sun) 09:00",
    "session_3": "not a list",
    "session_10": []
  },
  "qa": []
}"#;

#[test]
fn parse_json_values() {
    match parse_json(r#"{"a": [1, 2.5, "x", null, true]}"#) {
        Some(Json::Object(es)) => {
            assert_eq!(es.len(), 1);
            assert_eq!(es[0].0, "a");
            match &es[0].1 {
                Json::Array(xs) => {
                    assert_eq!(xs.len(), 5);
                    assert!(matches!(&xs[0], Json::Number(n) if n == "1"));
                    assert!(matches!(&xs[1], Json::Number(n) if n == "2.5"));
                    assert!(matches!(&xs[2], Json::Str(t) if t == "x"));
                    assert!(matches!(&xs[3], Json::Null));
                    assert!(matches!(&xs[4], Json::Bool(true)));
                }
                _ => panic!("expected an array"),
            }
        }
        _ => panic!("expected an object"),
    }
    assert!(parse_json("{").is_none());
    assert!(parse_json("").is_none());
}

#[test]
fn conversation_sessions_from_document() {
    let doc = parse_json(CONV).unwrap();
    let ss = conversation_sessions(&doc);
    let es = ss.entries();
    let nums: Vec<usize> = es.iter().map(|e| e.0).collect();
    assert_eq!(nums, vec![1, 2, 3, 10]);
    assert_eq!(es[0].1, "2023/05/07 (Sun) 09:00");
    assert_eq!(es[0].2, "Session 1 on 2023/05/07 (Sun) 09:00:\nCaroline: Hey Mel!\n");
    assert_eq!(es[1].2, "Session 2 on 2023/05/08 (Mon) 13:56:\nMelanie: hi\nuser: \n");
    assert_eq!(es[2].1, "");
    assert_eq!(es[2].2, "Session 3 on :\n");
    assert_eq!(es[3].2, "Session 10 on :\n");
    assert_eq!(conversation_sessions(&parse_json("[1]").unwrap()).len(), 0);
    assert_eq!(conversation_sessions(&parse_json(r#"{"conversation": 1}"#).unwrap()).len(), 0);
}

#[test]
fn sidecar_maps_minutes_to_dates() {
    let es = vec![
        (1usize, s("2023/05/07 (Sun) 09:00"), s("t1")),
        (2, s("2023/05/08 (Mon) 13:56"), s("t2")),
        (3, s("2023/05/07 (Sun) 9:0"), s("t3")),
    ];
    let d = sidecar_dates(&es).unwrap();
    let k1 = parse_date("2023/05/07 (Sun) 09:00").to_string();
    let k2 = parse_date("2023/05/08 (Mon) 13:56").to_string();
    assert_eq!(d, vec![(k1.clone(), s("2023/05/07 (Sun) 9:0")), (k2.clone(), s("2023/05/08 (Mon) 13:56"))]);
    let text = dates_to_json(&d);
    let mut back = parse_dates(&text).unwrap();
    back.sort();
    let mut want = d.clone();
    want.sort();
    assert_eq!(back, want);
    assert!(sidecar_dates(&vec![(1, s("9223372036854775807/1/1"), s("t"))]).is_none());
}

#[test]
fn parse_dates_reads_string_maps_only() {
    assert_eq!(parse_dates(r#"{"5": "May 8", "10": "May 9"}"#), Some(vec![(s("10"), s("May 9")), (s("5"), s("May 8"))]));
    assert_eq!(parse_dates(r#"{"5": 1}"#), None);
    assert_eq!(parse_dates("nope"), None);
    assert_eq!(dates_to_json(&vec![(s("5"), s("May \"8\""))]), r#"{"5":"May \"8\""}"#);
}
