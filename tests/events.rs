use regex_folder::loader::FileEntry;
use regex_folder::pattern::Pattern;
use regex_folder::record::Record;
use regex_folder::registry::{load_regex_files, Registry};

const EVENT_PATTERN: &str = "(?<start>\\d+:\\d+)\\s*[–-]\\s*(?<end>\\d+:\\d+)\\s+(?:AM|PM)\\t(?<desc>.+)\n";

const EVENTS: &str = "# Weekday plan: times are local, one task a line.\n\
7:30–8:00 AM\tWake up + hydrate + light stretch\n\
8:00–8:30 AM\tBreakfast and coffee\n\
8:30–9:00 AM\tCommute or walk\n\
9:00–10:30 AM\tDeep work block\n\
10:30–10:45 AM\tShort break\n\
10:45–12:00 PM\tMeetings\n\
12:00–1:00 PM\tLunch\n\
1:00–2:30 PM\tFocused project time\n\
2:30-3:00 PM\tEmail and messages\n\
3:00–4:30 PM\tSecond work block\n\
4:30–5:00 PM\tPlan tomorrow\n\
5:30–6:30 PM\tExercise\n\
6:30–7:30 PM\tDinner\n";

fn registry() -> Registry {
    let entries = vec![
        FileEntry { file_name: "Event.re".to_string(), contents: EVENT_PATTERN.to_string() },
        FileEntry { file_name: "notes.txt".to_string(), contents: "not a pattern".to_string() },
    ];
    match load_regex_files(&entries) {
        Ok(r) => r,
        Err(_) => panic!("the pattern folder should load"),
    }
}

fn event(reg: &Registry) -> &Pattern {
    reg.get("Event").unwrap()
}

fn field<'a>(rec: &'a Record, name: &str) -> Option<&'a regex_folder::record::SubMatch> {
    rec.fields.iter().find(|f| f.name == name).and_then(|f| f.value.as_ref())
}

#[test]
pub fn events_vec() {
    let reg = registry();
    let mut buf = String::new();
    let events = event(&reg).collect_all_in_buffer(&mut buf, EVENTS);
    assert!(events.len() == 13);
}

#[test]
pub fn events_iter() {
    let reg = registry();
    let mut buf = String::new();
    let events = event(&reg).match_all_in_buffer(&mut buf, EVENTS);
    assert_eq!(events.count(), 13);
}

#[test]
pub fn first_event() {
    let reg = registry();
    let mut buf = String::new();
    let event = event(&reg).match_first_in_buffer(&mut buf, EVENTS).unwrap();
    assert_eq!(event.val, "7:30–8:00 AM	Wake up + hydrate + light stretch");
}

#[test]
pub fn first_event_captures() {
    let reg = registry();
    let mut content = String::new();
    let captures = event(&reg).match_first_in_buffer(&mut content, EVENTS).unwrap();
    assert_eq!(captures.val.as_str(), "7:30–8:00 AM	Wake up + hydrate + light stretch");
    assert_eq!(field(&captures, "end").unwrap().val.as_str(), "8:00");
    assert_eq!(field(&captures, "end").unwrap().start_pos, 57);
}

#[test]
pub fn event_captures_iter() {
    let reg = registry();
    let mut content = String::new();
    let mut captures_iter = event(&reg).match_all_in_buffer(&mut content, EVENTS);
    let mut n = 0;
    while captures_iter.next().is_some() {
        n += 1;
    }
    assert_eq!(n, 13);
}

#[test]
fn record_fields_follow_group_order() {
    let reg = registry();
    let p = event(&reg);
    let names: Vec<&str> = p.groups().iter().map(|g| g.name.as_str()).collect();
    assert_eq!(names, vec!["start", "end", "desc"]);
    let rec = p.match_first(EVENTS).unwrap();
    let fields: Vec<&str> = rec.fields.iter().map(|f| f.name.as_str()).collect();
    assert_eq!(fields, vec!["start", "end", "desc"]);
}

#[test]
fn captures_are_slices_of_the_text() {
    let reg = registry();
    for rec in event(&reg).collect_all(EVENTS) {
        assert_eq!(&EVENTS[rec.start_pos..rec.end_pos], rec.val.as_str());
        for f in &rec.fields {
            let m = f.value.as_ref().unwrap();
            assert_eq!(&EVENTS[m.start_pos..m.end_pos], m.val.as_str());
        }
    }
}

#[test]
fn matches_ascend_without_overlap() {
    let reg = registry();
    let recs = event(&reg).collect_all(EVENTS);
    for w in recs.windows(2) {
        assert!(w[0].end_pos <= w[1].start_pos);
        assert!(w[0].start_pos < w[1].start_pos);
    }
    let mut buf = String::new();
    assert_eq!(event(&reg).match_all_in_buffer(&mut buf, EVENTS).count(), recs.len());
}

#[test]
fn first_match_is_first_of_all() {
    let reg = registry();
    let p = event(&reg);
    let first = p.match_first(EVENTS).unwrap();
    let all = p.collect_all(EVENTS);
    assert_eq!(first.start_pos, all[0].start_pos);
    assert_eq!(first.end_pos, all[0].end_pos);
    assert_eq!(first.val, all[0].val);
    assert!(p.match_first("no times here").is_none());
    assert!(p.collect_all("no times here").is_empty());
}

#[test]
fn collecting_twice_gives_equal_records() {
    let reg = registry();
    let p = event(&reg);
    let mut buf = String::new();
    let a = p.collect_all_in_buffer(&mut buf, EVENTS);
    let b = p.collect_all_in_buffer(&mut buf, EVENTS);
    assert_eq!(a.len(), b.len());
    for (x, y) in a.iter().zip(b.iter()) {
        assert_eq!((x.start_pos, x.end_pos, &x.val), (y.start_pos, y.end_pos, &y.val));
    }
}

#[test]
fn buffer_holds_the_latest_contents() {
    let reg = registry();
    let p = event(&reg);
    let mut buf = String::new();
    assert_eq!(p.match_all_in_buffer(&mut buf, EVENTS).count(), 13);
    assert_eq!(p.match_all_in_buffer(&mut buf, "1:00–2:00 PM\tNap\n").count(), 1);
    assert_eq!(buf, "1:00–2:00 PM\tNap\n");
}

#[test]
fn typed_conversion_of_a_field() {
    let reg = registry();
    let rec = event(&reg).match_first("12:15 - 12:45 PM\tx").unwrap();
    let start = field(&rec, "start").unwrap();
    assert_eq!(start.val, "12:15");
    assert_eq!(start.start_pos, 0);
    assert_eq!(start.to::<u32>(), None);
    let p = Pattern::compile("Num".to_string(), "(?<n>\\d+)").ok().unwrap();
    let rec = p.match_first("ab 42").unwrap();
    assert_eq!(rec.fields[0].value.as_ref().unwrap().to::<u32>(), Some(42));
}

#[test]
fn record_from_reported_spans() {
    let reg = registry();
    let p = event(&reg);
    let text = "9:00–10:30 AM\tDeep work";
    let spans = vec![Some((0, 25)), Some((0, 4)), Some((7, 12)), Some((16, 25))];
    let rec = p.record_from_spans(text, &spans);
    assert_eq!(rec.val, text);
    assert_eq!(rec.fields[0].value.as_ref().unwrap().val, "9:00");
    assert_eq!(rec.fields[1].value.as_ref().unwrap().val, "10:30");
    assert_eq!(rec.fields[2].value.as_ref().unwrap().val, "Deep work");
    let spans = vec![Some((7, 12)), None, Some((7, 12)), None];
    let rec = p.record_from_spans(text, &spans);
    assert_eq!((rec.start_pos, rec.end_pos, rec.val.as_str()), (7, 12, "10:30"));
    assert!(rec.fields[0].value.is_none());
    assert!(rec.fields[2].value.is_none());
}

#[test]
fn raw_captures_of_first_event() {
    let reg = registry();
    let spans = event(&reg).captures(EVENTS).unwrap();
    assert_eq!(spans.len(), 4);
    assert_eq!(spans[0], Some((50, 98)));
    assert_eq!(spans[2], Some((57, 61)));
    assert!(event(&reg).captures("nothing").is_none());
}

#[test]
fn raw_spans_iterate_like_records() {
    let reg = registry();
    let p = event(&reg);
    let mut buf = String::new();
    let mut it = p.match_all_in_buffer(&mut buf, EVENTS);
    let mut starts = Vec::new();
    while let Some(spans) = it.next_spans() {
        assert_eq!(spans.len(), 4);
        starts.push(spans[0].unwrap().0);
    }
    assert_eq!(starts.len(), 13);
    assert_eq!(starts[0], 50);
    let mut raw = String::new();
    let first = p.captures_in_buffer(&mut raw, EVENTS).unwrap();
    assert_eq!(first[2], Some((57, 61)));
    assert_eq!(raw, EVENTS);
}

#[test]
fn captures_lie_inside_their_match() {
    let reg = registry();
    for rec in event(&reg).collect_all(EVENTS) {
        for f in &rec.fields {
            let m = f.value.as_ref().unwrap();
            assert!(rec.start_pos <= m.start_pos && m.start_pos <= m.end_pos && m.end_pos <= rec.end_pos);
        }
    }
}
