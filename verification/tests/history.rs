use nim_proxy::history::{point_of, query_answer, query_span, History, Write};

fn empty(days: u64) -> History {
    History {
        points: Vec::new(),
        days,
        dropped_since_compact: 0,
        persistent: false,
    }
}

#[test]
fn retention_prunes_and_range_filters() {
    let mut h = empty(1);
    h.append(1_000, "old".into());
    h.append(200_000, "new".into()); // 1-day cutoff drops t=1000
    assert_eq!(h.range(0, u64::MAX, 100).len(), 1);
    h.append(200_300, "newer".into());
    let r = h.range(200_000, 200_100, 100);
    assert_eq!(r.len(), 1);
    assert_eq!(r[0].1, "new");
}

#[test]
fn range_downsamples_to_max() {
    let h = History {
        points: (0..1000u64).map(|i| (i, i.to_string())).collect(),
        days: 0,
        dropped_since_compact: 0,
        persistent: false,
    };
    let r = h.range(0, 999, 100);
    assert!(r.len() <= 101, "got {}", r.len());
    assert_eq!(r.last().unwrap().0, 999, "endpoint kept");
}

#[test]
fn load_reads_existing_snapshots_and_skips_junk() {
    // Two valid lines, one unparseable line (skipped), one out-of-order.
    let file = b"{\"t\":10,\"m\":\"a\"}\nnot json\n{\"t\":20,\"m\":\"b\"}\n{\"t\":5,\"m\":\"c\"}\n";
    let h = History::load(file, true, 0);
    let all = h.range(0, u64::MAX, 100);
    assert_eq!(all.len(), 3, "3 valid lines parsed, junk skipped");
    assert_eq!(all[0].0, 5, "snapshots sorted by timestamp on load");
    let h2 = History::load(file, true, 7);
    assert_eq!(h2.range(0, u64::MAX, 100).len(), 3);
}

#[test]
fn append_compacts_the_file_after_a_days_worth_of_expiry() {
    let mut h = History {
        points: vec![(1, "old".into())],
        days: 1,
        // One more expiry crosses the >288 compaction threshold.
        dropped_since_compact: 288,
        persistent: true,
    };
    // days = 1: cutoff = 200_000 - 86_400 = 113_600, so the t=1 snapshot
    // expires; that pushes the drop count to 289 (>288) and triggers a full
    // file rewrite rather than an append.
    let Write::Rewrite(contents) = h.append(200_000, "new".into()) else {
        panic!("expected a rewrite");
    };
    assert!(contents.contains("new"), "surviving snapshot rewritten");
    assert!(
        !contents.contains("old"),
        "expired snapshot compacted out of the file"
    );
    assert_eq!(h.dropped_since_compact, 0);
}

#[test]
fn appended_line_is_json_with_a_line_break() {
    let mut h = empty(0);
    h.persistent = true;
    let Write::Append(line) = h.append(7, "a \"b\"\nc".into()) else {
        panic!("expected an append");
    };
    assert_eq!(line, "{\"m\":\"a \\\"b\\\"\\nc\",\"t\":7}\n");
    h.persistent = false;
    assert!(matches!(h.append(8, "x".into()), Write::Nothing));
}

#[test]
fn written_file_loads_as_it_was_written() {
    let mut file = String::new();
    let mut h = empty(0);
    h.persistent = true;
    for (t, m) in [(3, "one"), (3, "two\r\n"), (9, "\u{20ac}\u{1F600}")] {
        match h.append(t, m.into()) {
            Write::Append(line) => file.push_str(&line),
            _ => panic!("expected an append"),
        }
    }
    let back = History::load(file.as_bytes(), true, 0);
    assert_eq!(back.points, h.points);
}

#[test]
fn rewritten_file_loads_as_it_was_written() {
    let mut h = History {
        points: vec![(1, "old".into()), (190_000, "kept".into())],
        days: 1,
        dropped_since_compact: 500,
        persistent: true,
    };
    let Write::Rewrite(file) = h.append(200_000, "new".into()) else {
        panic!("expected a rewrite");
    };
    assert_eq!(
        History::load(file.as_bytes(), true, 0).points,
        vec![(190_000, "kept".to_owned()), (200_000, "new".to_owned())]
    );
}

#[test]
fn load_keeps_the_order_of_one_time_and_stops_at_bad_text() {
    let h = History::load(
        b"{\"t\":2,\"m\":\"b\"}\r\n{\"t\":1,\"m\":\"x\"}\n{\"t\":2,\"m\":\"a\"}\n\xff\n{\"t\":0,\"m\":\"lost\"}\n",
        false,
        0,
    );
    assert_eq!(
        h.points,
        vec![(1, "x".to_owned()), (2, "b".to_owned()), (2, "a".to_owned())]
    );
    // A last line without a line break counts; wrong types do not.
    let h = History::load(b"{\"t\":-1,\"m\":\"n\"}\n{\"t\":4,\"m\":5}\n[]\n{\"t\":4,\"m\":\"end\"}", false, 0);
    assert_eq!(h.points, vec![(4, "end".to_owned())]);
}

#[test]
fn range_keeps_endpoints_and_small_ranges_whole() {
    let mut h = empty(0);
    for t in 0..10u64 {
        h.append(t, t.to_string());
    }
    let at = |r: Vec<(u64, String)>| r.into_iter().map(|p| p.0).collect::<Vec<u64>>();
    assert_eq!(at(h.range(2, 5, 4)), vec![2, 3, 4, 5]);
    assert_eq!(at(h.range(0, 9, 4)), vec![0, 3, 6, 9]);
    assert_eq!(at(h.range(0, 8, 4)), vec![0, 3, 6, 8]);
    // Fewer than two count as two.
    assert_eq!(at(h.range(0, 9, 0)), vec![0, 5, 9]);
    assert!(h.range(20, 30, 4).is_empty());
}

#[test]
fn retention_can_be_retuned() {
    let mut h = empty(0);
    h.append(1_000, "old".into());
    h.append(900_000, "new".into());
    assert_eq!(h.points.len(), 2);
    h.set_days(1);
    assert_eq!(h.points.len(), 2);
    h.append(900_001, "newer".into());
    assert_eq!(h.points.len(), 2);
    assert_eq!(h.dropped_since_compact, 1);
    // A retention beyond all time keeps everything.
    h.set_days(u64::MAX);
    h.append(900_002, "newest".into());
    assert_eq!(h.points.len(), 3);
}

#[test]
fn a_snapshot_is_a_time_and_a_text() {
    let read = |s: &str| point_of(&serde_json::from_str(s).unwrap());
    assert_eq!(read("{\"t\":1,\"m\":\"a\"}"), Some((1, "a".to_owned())));
    assert_eq!(read("{\"t\":1.5,\"m\":\"a\"}"), None);
    assert_eq!(read("{\"m\":\"a\"}"), None);
}

#[test]
fn history_queries_default_to_the_last_day() {
    assert_eq!(query_span(200_000, &None, &None), (113_600, 200_000));
    assert_eq!(query_span(5, &None, &None), (0, 5));
    assert_eq!(
        query_span(200_000, &Some("7".into()), &Some("nope".into())),
        (7, 200_000)
    );
    assert_eq!(
        query_answer(&vec![(1, "a".into()), (2, "b".into())]),
        "[{\"m\":\"a\",\"t\":1},{\"m\":\"b\",\"t\":2}]"
    );
    assert_eq!(query_answer(&Vec::new()), "[]");
}

#[test]
fn whole_runs_are_read_back() {
    let mut file = String::from("{\"m\":\"first\",\"t\":7}\nnot json\n");
    let mut h = History::load(file.as_bytes(), true, 0);
    let mut rewrites = 0;
    let mut put = |h: &mut History, t: u64, m: &str, file: &mut String| match h.append(t, m.into()) {
        Write::Append(line) => file.push_str(&line),
        Write::Rewrite(all) => {
            rewrites += 1;
            *file = all;
        }
        Write::Nothing => panic!("expected a write"),
    };
    // Twice the same snapshot, and one from a clock that was set back.
    for (t, m) in [(20, "a"), (20, "a"), (10, "b\n\"")] {
        put(&mut h, t, m, &mut file);
    }
    let again = History::load(file.as_bytes(), true, 0);
    let all: Vec<(u64, String)> = [(7, "first"), (10, "b\n\""), (20, "a"), (20, "a")]
        .into_iter()
        .map(|(t, m)| (t, m.to_owned()))
        .collect();
    assert_eq!(again.range(0, u64::MAX, 100), all);
    // Enough of them expire for the file to be written anew.
    for t in 0..300 {
        put(&mut h, 1_000 + t, "x", &mut file);
    }
    h.set_days(1);
    put(&mut h, 200_000, "y", &mut file);
    put(&mut h, 200_001, "z", &mut file);
    let again = History::load(file.as_bytes(), true, 1);
    assert_eq!(again.range(0, u64::MAX, 100), h.range(0, u64::MAX, 100));
    assert_eq!(again.points.len(), 2);
    assert_eq!(rewrites, 1);
}
