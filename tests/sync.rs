use ics2pda::event::{EventProperty, RawEvent};
use ics2pda::identity::{compute_identity, content_hash, MissingField};
use ics2pda::pipeline::{parse_feed, sync, sync_parsed, FeedInput, ParsedFeed};
use ics2pda::registry::{Admission, Registry};
use ics2pda::render::{convert_line, post_process};
use ics2pda::text::replace_all;
use ics2pda::transform::{mark_description, transform};
use std::hash::BuildHasher;

fn prop(name: &str, value: &str) -> EventProperty {
    EventProperty { name: name.to_string(), params: Vec::new(), value: value.to_string() }
}

fn event(props: &[(&str, &str)]) -> RawEvent {
    RawEvent {
        properties: props.iter().map(|(n, v)| prop(n, v)).collect(),
        multi_properties: Vec::new(),
    }
}

fn chars(s: &str) -> Vec<char> {
    s.chars().collect()
}

fn text(v: &[char]) -> String {
    v.iter().collect()
}

fn feed_text(uid: &str, with_standup: bool) -> String {
    let mut s = String::from("BEGIN:VCALENDAR\r\nVERSION:2.0\r\nPRODID:test\r\n");
    if with_standup {
        s.push_str("BEGIN:VEVENT\r\nDTSTAMP:20231201T000000Z\r\nUID:");
        s.push_str(uid);
        s.push_str("\r\nDTSTART:20240101T090000\r\nDTEND:20240101T100000\r\nSUMMARY:Standup\r\nRRULE:FREQ=DAILY\r\nTRANSP:OPAQUE\r\nEND:VEVENT\r\n");
    }
    s.push_str("END:VCALENDAR\r\n");
    s
}

fn work(uid: &str, with_standup: bool) -> Vec<FeedInput> {
    vec![FeedInput { name: "Work".to_string(), fetched: Ok(feed_text(uid, with_standup)) }]
}

#[test]
fn replace_all_is_left_to_right() {
    let r = replace_all(&chars("aaa"), &chars("aa"), &chars("b"));
    assert_eq!(text(&r), "ba");
    let r = replace_all(&chars("x\\ny"), &chars("\\n"), &chars("\\r\\n"));
    assert_eq!(text(&r), "x\\r\\ny");
}

#[test]
fn convert_line_rewrites_escapes() {
    assert_eq!(text(&convert_line(&chars("a\\nb\r"))), "a\\r\\nb");
    assert_eq!(text(&convert_line(&chars("a\\\\nb"))), "a\\nb");
    assert_eq!(text(&convert_line(&chars("plain"))), "plain");
}

#[test]
fn post_process_drops_cleared_lines() {
    let input = "BEGIN:VCALENDAR\r\nUID:\r\nSUMMARY:x\r\nTRANSP:\r\nRRULE:\r\nDESCRIPTION:a\\nb\r\n\r\nEND:VCALENDAR\r\n";
    let out = text(&post_process(&chars(input)));
    assert_eq!(out, "BEGIN:VCALENDAR\nSUMMARY:x\nDESCRIPTION:a\\r\\nb\n\nEND:VCALENDAR");
}

#[test]
fn post_process_of_empty_text_is_empty() {
    assert_eq!(text(&post_process(&chars(""))), "");
    assert_eq!(text(&post_process(&chars("UID:abc\n"))), "");
}

#[test]
fn marker_after_existing_description() {
    assert_eq!(mark_description("Hello", "abc"), "Hello\\ndo not edit next line:\\nabc");
}

#[test]
fn marker_on_empty_description() {
    assert_eq!(mark_description("", "abc"), "do not edit next line:\\nabc");
}

#[test]
fn content_hash_matches_default_hasher() {
    let expected = std::hash::BuildHasherDefault::<std::hash::DefaultHasher>::default()
        .hash_one("20240101T090000\n20240101T100000\nStandup") as i128
        - i64::MAX as i128;
    assert_eq!(content_hash("20240101T090000", "20240101T100000", "Standup"), expected);
}

#[test]
fn identity_ignores_uid_and_description() {
    let a = event(&[("DTSTART", "1"), ("DTEND", "2"), ("SUMMARY", "s"), ("UID", "abc")]);
    let b = event(&[("UID", "xyz"), ("DESCRIPTION", "d"), ("SUMMARY", "s"), ("DTEND", "2"), ("DTSTART", "1")]);
    let ia = compute_identity(&a).unwrap();
    let ib = compute_identity(&b).unwrap();
    assert_eq!(ia.hash, ib.hash);
    assert_eq!(ia.original_uid, "abc");
    assert_eq!(ib.original_uid, "xyz");
}

#[test]
fn identity_depends_on_summary() {
    let a = event(&[("DTSTART", "1"), ("DTEND", "2"), ("SUMMARY", "s")]);
    let b = event(&[("DTSTART", "1"), ("DTEND", "2"), ("SUMMARY", "t")]);
    assert_ne!(compute_identity(&a).unwrap().hash, compute_identity(&b).unwrap().hash);
    assert_eq!(compute_identity(&a).unwrap().original_uid, "");
}

#[test]
fn identity_fields_are_delimited() {
    let a = event(&[("DTSTART", "1"), ("DTEND", "23"), ("SUMMARY", "s")]);
    let b = event(&[("DTSTART", "12"), ("DTEND", "3"), ("SUMMARY", "s")]);
    assert_ne!(compute_identity(&a).unwrap().hash, compute_identity(&b).unwrap().hash);
}

#[test]
fn identity_missing_fields() {
    let e = event(&[("DTEND", "2"), ("SUMMARY", "s")]);
    assert_eq!(compute_identity(&e).unwrap_err(), MissingField::Start);
    let e = event(&[("DTSTART", "1"), ("SUMMARY", "s")]);
    assert_eq!(compute_identity(&e).unwrap_err(), MissingField::End);
    let e = event(&[("DTSTART", "1"), ("DTEND", "2")]);
    assert_eq!(compute_identity(&e).unwrap_err(), MissingField::Summary);
}

#[test]
fn transform_clears_and_tags() {
    let mut e = event(&[
        ("DTSTART", "1"), ("DTEND", "2"), ("SUMMARY", "s"), ("UID", "abc"),
        ("DESCRIPTION", "Notes"), ("RRULE", "FREQ=DAILY"),
    ]);
    e.multi_properties.push(prop("CATEGORIES", "Old"));
    e.multi_properties.push(prop("ATTENDEE", "mailto:a@b"));
    let id = compute_identity(&e).unwrap();
    let t = transform(&e, id, "Work");
    let get = |n: &str| t.body.properties.iter().find(|p| p.name == n).map(|p| p.value.clone());
    assert_eq!(get("DESCRIPTION").unwrap(), "Notes\\ndo not edit next line:\\nabc");
    assert_eq!(get("CATEGORIES").unwrap(), "Work");
    assert_eq!(get("UID").unwrap(), "");
    assert_eq!(get("RRULE").unwrap(), "");
    assert_eq!(get("TRANSP").unwrap(), "");
    assert_eq!(get("SUMMARY").unwrap(), "s");
    assert_eq!(t.body.multi_properties.len(), 1);
    assert_eq!(t.body.multi_properties[0].name, "ATTENDEE");
    assert_eq!(t.category, "Work");
}

#[test]
fn transform_without_uid_marks_no_uid() {
    let e = event(&[("DTSTART", "1"), ("DTEND", "2"), ("SUMMARY", "s")]);
    let id = compute_identity(&e).unwrap();
    let t = transform(&e, id, "Home");
    let d = t.body.properties.iter().find(|p| p.name == "DESCRIPTION").unwrap();
    assert_eq!(d.value, "do not edit next line:\\nno UID");
}

#[test]
fn registry_offer_and_lookup() {
    let mut r = Registry::new();
    let e = event(&[("DTSTART", "1"), ("DTEND", "2"), ("SUMMARY", "s"), ("UID", "u")]);
    let id = compute_identity(&e).unwrap();
    assert!(r.lookup(id.hash).is_none());
    assert_eq!(r.offer(&id, "Work"), Admission::New(0));
    assert_eq!(r.offer(&id, "Work"), Admission::Unchanged(0));
    assert_eq!(r.lookup(id.hash).unwrap().file, 0);
    assert_eq!(r.next_file, 1);
    let f = compute_identity(&event(&[("DTSTART", "1"), ("DTEND", "2"), ("SUMMARY", "t")])).unwrap();
    assert_eq!(r.offer(&f, "Home"), Admission::New(1));
}

#[test]
fn registry_stale_respects_failed_feeds() {
    let mut r = Registry::new();
    let a = compute_identity(&event(&[("DTSTART", "1"), ("DTEND", "2"), ("SUMMARY", "a")])).unwrap();
    let b = compute_identity(&event(&[("DTSTART", "1"), ("DTEND", "2"), ("SUMMARY", "b")])).unwrap();
    let c = compute_identity(&event(&[("DTSTART", "1"), ("DTEND", "2"), ("SUMMARY", "c")])).unwrap();
    r.offer(&a, "Work");
    r.offer(&b, "Work");
    r.offer(&c, "Home");
    let seen = vec![a.hash];
    let failed = vec!["Home".to_string()];
    let stale = r.stale_entries(&seen, &failed);
    assert_eq!(stale.len(), 1);
    assert_eq!(stale[0].hash, b.hash);
    assert_eq!(r.remove_stale(&seen, &failed), vec![1]);
    assert_eq!(r.entries.len(), 2);
    assert_eq!(r.entries[0].file, 0);
    assert_eq!(r.entries[1].file, 2);
    assert_eq!(r.next_file, 3);
}

#[test]
fn parse_feed_reads_events() {
    let events = parse_feed(&feed_text("abc", true)).unwrap();
    assert_eq!(events.len(), 1);
    let id = compute_identity(&events[0]).unwrap();
    assert_eq!(id.original_uid, "abc");
    assert_eq!(id.hash, content_hash("20240101T090000", "20240101T100000", "Standup"));
}

#[test]
fn first_run_writes_standup() {
    let mut reg = Registry::new();
    let plan = sync(&mut reg, &work("abc", true));
    assert_eq!(plan.writes.len(), 1);
    assert!(plan.removals.is_empty());
    assert_eq!(plan.writes[0].file, 0);
    let t = &plan.writes[0].text;
    assert!(t.lines().any(|l| l == "CATEGORIES:Work"));
    assert!(t.lines().any(|l| l == "DESCRIPTION:do not edit next line:\\nabc"));
    assert_eq!(t.matches("do not edit next line:").count(), 1);
    for l in t.lines() {
        assert!(!l.starts_with("UID:"));
        assert!(!l.starts_with("RRULE:"));
        assert!(!l.starts_with("TRANSP:"));
    }
    assert!(t.lines().any(|l| l == "SUMMARY:Standup"));
    assert_eq!(reg.entries.len(), 1);
    assert_eq!(reg.entries[0].uid, "abc");
    let rep = &plan.reports[0];
    assert_eq!((rep.new, rep.unchanged, rep.removed, rep.skipped), (1, 0, 0, 0));
    assert!(rep.failure.is_none());
}

#[test]
fn second_run_with_new_uid_is_idle() {
    let mut reg = Registry::new();
    sync(&mut reg, &work("abc", true));
    let plan = sync(&mut reg, &work("xyz", true));
    assert!(plan.writes.is_empty());
    assert!(plan.removals.is_empty());
    assert_eq!(reg.entries.len(), 1);
    assert_eq!(reg.entries[0].uid, "abc");
    assert_eq!(reg.entries[0].file, 0);
    assert_eq!(plan.reports[0].unchanged, 1);
}

#[test]
fn rerun_on_unchanged_feed_is_idle() {
    let mut reg = Registry::new();
    sync(&mut reg, &work("abc", true));
    let plan = sync(&mut reg, &work("abc", true));
    assert!(plan.writes.is_empty());
    assert!(plan.removals.is_empty());
    assert_eq!(reg.next_file, 1);
}

#[test]
fn omitted_event_is_removed() {
    let mut reg = Registry::new();
    sync(&mut reg, &work("abc", true));
    let plan = sync(&mut reg, &work("abc", false));
    assert!(plan.writes.is_empty());
    assert_eq!(plan.removals, vec![0]);
    assert!(reg.entries.is_empty());
    assert_eq!(plan.reports[0].removed, 1);
}

#[test]
fn failed_fetch_keeps_entries() {
    let mut reg = Registry::new();
    sync(&mut reg, &work("abc", true));
    let feeds = vec![FeedInput { name: "Work".to_string(), fetched: Err("timeout".to_string()) }];
    let plan = sync(&mut reg, &feeds);
    assert!(plan.removals.is_empty());
    assert_eq!(reg.entries.len(), 1);
    assert_eq!(plan.reports[0].failure.as_deref(), Some("timeout"));
}

#[test]
fn event_without_summary_is_skipped() {
    let text = "BEGIN:VCALENDAR\r\nBEGIN:VEVENT\r\nUID:q\r\nDTSTART:20240101T090000\r\nDTEND:20240101T100000\r\nEND:VEVENT\r\nEND:VCALENDAR\r\n";
    let mut reg = Registry::new();
    let feeds = vec![FeedInput { name: "Work".to_string(), fetched: Ok(text.to_string()) }];
    let plan = sync(&mut reg, &feeds);
    assert!(plan.writes.is_empty());
    assert_eq!(plan.reports[0].skipped, 1);
    assert!(reg.entries.is_empty());
}

#[test]
fn folded_lines_are_unfolded() {
    let text = "BEGIN:VCALENDAR\r\nBEGIN:VEVENT\r\nUID:f\r\nDTSTART:1\r\nDTEND:2\r\nSUMMARY:Stand\r\n up\r\nEND:VEVENT\r\nEND:VCALENDAR\r\n";
    let events = parse_feed(text).unwrap();
    assert_eq!(events.len(), 1);
    assert_eq!(compute_identity(&events[0]).unwrap().hash, content_hash("1", "2", "Standup"));
}

#[test]
fn unterminated_feed_is_a_parse_failure() {
    let text = "BEGIN:VCALENDAR\r\nBEGIN:VEVENT\r\nSUMMARY:x\r\n";
    let mut reg = Registry::new();
    sync(&mut reg, &work("abc", true));
    let feeds = vec![FeedInput { name: "Work".to_string(), fetched: Ok(text.to_string()) }];
    let plan = sync(&mut reg, &feeds);
    assert!(plan.reports[0].failure.is_some());
    assert!(plan.removals.is_empty());
    assert_eq!(reg.entries.len(), 1);
}

#[test]
fn sync_parsed_over_two_feeds() {
    let mut reg = Registry::new();
    let a = event(&[("DTSTART", "1"), ("DTEND", "2"), ("SUMMARY", "a"), ("UID", "ua")]);
    let b = event(&[("DTSTART", "1"), ("DTEND", "2"), ("SUMMARY", "b")]);
    let feeds = vec![
        ParsedFeed { name: "Work".to_string(), events: Ok(vec![a.clone(), b.clone()]) },
        ParsedFeed { name: "Home".to_string(), events: Ok(vec![event(&[("SUMMARY", "no times")])]) },
    ];
    let plan = sync_parsed(&mut reg, &feeds);
    assert_eq!(plan.writes.iter().map(|w| w.file).collect::<Vec<_>>(), vec![0, 1]);
    assert_eq!(plan.reports[1].skipped, 1);
    let feeds = vec![
        ParsedFeed { name: "Work".to_string(), events: Ok(vec![b]) },
        ParsedFeed { name: "Home".to_string(), events: Err("down".to_string()) },
    ];
    let plan = sync_parsed(&mut reg, &feeds);
    assert!(plan.writes.is_empty());
    assert_eq!(plan.removals, vec![0]);
    assert_eq!(plan.reports[0].removed, 1);
    assert_eq!(reg.entries.len(), 1);
    assert_eq!(reg.entries[0].file, 1);
}

#[test]
fn tag_inside_text_is_kept() {
    let input = "SUMMARY:see UID: 7\r\nUID:\r\nX-NOTE:RRULE:\r\n";
    let out = text(&post_process(&chars(input)));
    assert_eq!(out, "SUMMARY:see UID: 7\nX-NOTE:RRULE:");
}
