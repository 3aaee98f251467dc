use room_availability::catalog::{BusyRecord, Catalog, FeedError, QueryError};
use room_availability::feed::{feed_records, parse_feed, process_event, room_names};
use room_availability::filter::ROOM_PATTERN;
use room_availability::interval::compute_free;
use room_availability::room::{status_at, Occupancy, Room};

fn record(room: &str, start: i64, end: i64) -> BusyRecord {
    BusyRecord { room: room.to_string(), start, end }
}

fn sorted_busy(catalog: &Catalog, name: &str) -> Option<Vec<(i64, i64)>> {
    catalog.busy_of(&name.to_string()).map(|mut v| {
        v.sort();
        v.dedup();
        v
    })
}

#[test]
fn overlap_absorption() {
    assert_eq!(compute_free(&vec![(0, 10), (5, 15)], 0, 20), vec![(15, 20)]);
}

#[test]
fn nested_interval_does_not_regress() {
    assert_eq!(compute_free(&vec![(0, 100), (10, 20)], 0, 100), vec![]);
}

#[test]
fn empty_busy_is_all_free() {
    assert_eq!(compute_free(&vec![], 0, 50), vec![(0, 50)]);
}

#[test]
fn free_is_sorted_complement() {
    let busy = vec![(30, 40), (5, 10), (8, 12), (50, 60)];
    let free = compute_free(&busy, 0, 55);
    assert_eq!(free, vec![(0, 5), (12, 30), (40, 50)]);
    for t in 0..55 {
        let in_free = free.iter().any(|&(s, e)| s <= t && t < e);
        let in_busy = busy.iter().any(|&(s, e)| s <= t && t < e);
        assert_ne!(in_free, in_busy);
    }
}

#[test]
fn free_computed_twice_is_identical() {
    let busy = vec![(7, 9), (1, 3), (2, 4)];
    assert_eq!(compute_free(&busy, 0, 12), compute_free(&busy, 0, 12));
    assert_eq!(compute_free(&busy, 0, 12), vec![(0, 1), (4, 7), (9, 12)]);
}

#[test]
fn free_is_clipped_at_horizon() {
    assert_eq!(compute_free(&vec![(100, 200)], 0, 50), vec![(0, 50)]);
    assert_eq!(compute_free(&vec![(10, 20)], 60, 50), vec![]);
    assert_eq!(compute_free(&vec![(10, 20)], 15, 30), vec![(20, 30)]);
}

#[test]
fn reversed_interval_covers_nothing() {
    assert_eq!(compute_free(&vec![(20, 10)], 0, 30), vec![(0, 30)]);
}

#[test]
fn room_derives_its_availability() {
    let mut room = Room::new("V-A 1".to_string());
    assert!(room.slots.is_empty() && room.availability.is_empty());
    room.slots = vec![(10, 20), (30, 40)];
    room.compute_availability(0, 50);
    assert_eq!(room.name, "V-A 1");
    assert_eq!(room.availability, vec![(0, 10), (20, 30), (40, 50)]);
}

#[test]
fn status_inside_interval_is_available() {
    assert_eq!(status_at(&vec![(100, 200)], 150, 1_000_000), (Occupancy::Available, 50, false));
}

#[test]
fn status_before_interval_is_unavailable() {
    assert_eq!(status_at(&vec![(100, 200)], 50, 1_000_000), (Occupancy::Unavailable, 50, false));
}

#[test]
fn status_after_all_intervals_is_unknown() {
    assert_eq!(status_at(&vec![(100, 200)], 250, 1_000_000), (Occupancy::Unavailable, -1, false));
}

#[test]
fn status_of_room_without_intervals() {
    assert_eq!(status_at(&vec![], 250, 0), (Occupancy::Unavailable, -1, false));
}

#[test]
fn status_open_when_interval_within_day() {
    assert_eq!(status_at(&vec![(100, 200)], 250, 0), (Occupancy::Unavailable, -1, true));
    assert_eq!(status_at(&vec![(100, 90_000)], 50, 0), (Occupancy::Unavailable, 50, false));
}

#[test]
fn status_takes_first_interval_in_order() {
    let busy = vec![(100, 150), (0, 200), (300, 400), (250, 260)];
    assert_eq!(status_at(&busy, 120, 1_000_000), (Occupancy::Available, 80, false));
    assert_eq!(status_at(&busy, 220, 1_000_000), (Occupancy::Unavailable, 30, false));
}

#[test]
fn occupancy_labels() {
    assert_eq!(Occupancy::Available.label(), "available");
    assert_eq!(Occupancy::Unavailable.label(), "unavailable");
}

#[test]
fn failed_feed_leaves_other_rooms_alone() {
    let mut catalog = Catalog::new();
    catalog.apply_pass(&vec![
        (1, Ok(vec![record("V-A 1", 0, 10)])),
        (2, Ok(vec![record("V-B 2", 5, 15)])),
    ]);
    catalog.apply_pass(&vec![(1, Ok(vec![record("V-A 1", 20, 30)])), (2, Err(FeedError::Network))]);
    assert_eq!(sorted_busy(&catalog, "V-A 1"), Some(vec![(20, 30)]));
    assert_eq!(sorted_busy(&catalog, "V-B 2"), Some(vec![(5, 15)]));
    assert_eq!(sorted_busy(&catalog, "V-B 3"), None);
}

#[test]
fn feed_replaces_busy_set() {
    let mut catalog = Catalog::new();
    catalog.apply_feed(7, &vec![record("V-A 1", 0, 10), record("V-A 1", 20, 30)]);
    catalog.apply_feed(7, &vec![record("V-A 1", 20, 30), record("V-A 1", 40, 50)]);
    assert_eq!(sorted_busy(&catalog, "V-A 1"), Some(vec![(20, 30), (40, 50)]));
}

#[test]
fn room_dropped_from_its_feed_is_cleared() {
    let mut catalog = Catalog::new();
    catalog.apply_pass(&vec![
        (1, Ok(vec![record("V-A 1", 0, 10), record("V-B 2", 0, 10)])),
        (2, Ok(vec![record("V-A 3", 5, 15)])),
    ]);
    catalog.apply_pass(&vec![(1, Ok(vec![record("V-B 2", 20, 30)])), (2, Ok(vec![]))]);
    assert_eq!(sorted_busy(&catalog, "V-A 1"), Some(vec![]));
    assert_eq!(sorted_busy(&catalog, "V-B 2"), Some(vec![(20, 30)]));
    assert_eq!(sorted_busy(&catalog, "V-A 3"), Some(vec![]));
    catalog.apply_pass(&vec![(1, Err(FeedError::Network)), (3, Ok(vec![record("V-A 1", 1, 2)]))]);
    assert_eq!(sorted_busy(&catalog, "V-A 1"), Some(vec![(1, 2)]));
    assert_eq!(sorted_busy(&catalog, "V-B 2"), Some(vec![(20, 30)]));
}

#[test]
fn feed_naming_several_rooms() {
    let mut catalog = Catalog::new();
    catalog.apply_outcome(4, &Ok(vec![
        record("V-A 1", 0, 10),
        record("V-B 2", 0, 10),
        record("V-A 1", 0, 10),
    ]));
    assert_eq!(sorted_busy(&catalog, "V-A 1"), Some(vec![(0, 10)]));
    assert_eq!(sorted_busy(&catalog, "V-B 2"), Some(vec![(0, 10)]));
    catalog.apply_outcome(4, &Err(FeedError::Malformed));
    assert_eq!(sorted_busy(&catalog, "V-B 2"), Some(vec![(0, 10)]));
}

#[test]
fn list_all_free_filters_rooms() {
    let mut catalog = Catalog::new();
    catalog.apply_feed(5, &vec![
        record("V-A 1", 10, 20),
        record("Amphi C", 0, 5),
        record("V-B", 30, 40),
    ]);
    catalog.replace_busy("V-A 9".to_string(), 6, vec![]);
    let mut listed = catalog.list_all_free(ROOM_PATTERN, 0, 50).unwrap();
    listed.sort();
    assert_eq!(
        listed,
        vec![
            ("V-A 1".to_string(), vec![(0, 10), (20, 50)]),
            ("V-B".to_string(), vec![(0, 30), (40, 50)]),
        ]
    );
}

#[test]
fn statuses_sorted_by_name() {
    let mut catalog = Catalog::new();
    catalog.apply_feed(5, &vec![
        record("V-B 2", 100, 200),
        record("V-A 1", 300, 400),
        record("Lab", 100, 200),
    ]);
    catalog.replace_busy("V-A 9".to_string(), 6, vec![]);
    let statuses = catalog.statuses_at(ROOM_PATTERN, 150, 1_000_000).unwrap();
    let summary: Vec<(String, Occupancy, i64, bool)> = statuses
        .into_iter()
        .map(|s| (s.name, s.status, s.duration, s.open))
        .collect();
    assert_eq!(
        summary,
        vec![
            ("V-A 1".to_string(), Occupancy::Unavailable, 150, false),
            ("V-A 9".to_string(), Occupancy::Unavailable, -1, false),
            ("V-B 2".to_string(), Occupancy::Available, 50, false),
        ]
    );
}

#[test]
fn invalid_pattern_is_reported() {
    let mut catalog = Catalog::new();
    catalog.apply_feed(5, &vec![record("V-A 1", 10, 20)]);
    assert_eq!(catalog.list_all_free("(", 0, 50).err(), Some(QueryError::InvalidFilter));
    assert_eq!(catalog.statuses_at("(", 0, 50).err(), Some(QueryError::InvalidFilter));
}

#[test]
fn names_split_on_escaped_comma() {
    assert_eq!(room_names("V-A 1\\,V-B 2"), vec!["V-A 1".to_string(), "V-B 2".to_string()]);
    assert_eq!(room_names(""), vec![String::new()]);
    assert_eq!(room_names("a,b\\\\,c"), vec!["a,b\\".to_string(), "c".to_string()]);
}

fn event(start: Option<&str>, end: Option<&str>, location: Option<&str>) -> Vec<Option<String>> {
    vec![
        Some("uid".to_string()),
        start.map(|s| s.to_string()),
        end.map(|s| s.to_string()),
        Some("summary".to_string()),
        location.map(|s| s.to_string()),
    ]
}

#[test]
fn event_gives_one_record_per_room() {
    let records = process_event(&event(
        Some("20240101T080000Z"),
        Some("20240101T100000Z"),
        Some("V-A 1\\,V-B 2"),
    ))
    .unwrap();
    let got: Vec<(String, i64, i64)> = records.into_iter().map(|r| (r.room, r.start, r.end)).collect();
    assert_eq!(
        got,
        vec![
            ("V-A 1".to_string(), 1704096000, 1704103200),
            ("V-B 2".to_string(), 1704096000, 1704103200),
        ]
    );
}

#[test]
fn event_errors() {
    assert_eq!(
        process_event(&vec![None, None, None]).err(),
        Some(FeedError::Malformed)
    );
    assert_eq!(
        process_event(&event(None, Some("20240101T100000Z"), Some("V-A"))).err(),
        Some(FeedError::BadDate)
    );
    assert_eq!(
        process_event(&event(Some("2024-01-01"), Some("20240101T100000Z"), Some("V-A"))).err(),
        Some(FeedError::BadDate)
    );
}

#[test]
fn feed_concatenates_events_or_fails() {
    let good = event(Some("20240101T080000Z"), Some("20240101T090000Z"), Some("V-A 1"));
    let other = event(Some("20240102T080000Z"), Some("20240102T090000Z"), Some("V-B 2"));
    let records = feed_records(&vec![good.clone(), other]).unwrap();
    assert_eq!(records.len(), 2);
    assert_eq!(records[1].room, "V-B 2");
    assert_eq!(records[1].start, 1704182400);
    let bad = event(Some("nope"), Some("20240101T090000Z"), Some("V-A 1"));
    assert_eq!(feed_records(&vec![good, bad]).err(), Some(FeedError::BadDate));
}

#[test]
fn calendar_document_gives_records() {
    let ics = "BEGIN:VCALENDAR\r\nVERSION:2.0\r\nBEGIN:VEVENT\r\nDTSTAMP:20240101T000000Z\r\nDTSTART:20240101T080000Z\r\nDTEND:20240101T100000Z\r\nSUMMARY:Lecture\r\nLOCATION:V-A 1\\,V-B 2\r\nEND:VEVENT\r\nEND:VCALENDAR\r\n";
    let records = parse_feed(ics).unwrap();
    let got: Vec<(String, i64, i64)> = records.into_iter().map(|r| (r.room, r.start, r.end)).collect();
    assert_eq!(
        got,
        vec![
            ("V-A 1".to_string(), 1704096000, 1704103200),
            ("V-B 2".to_string(), 1704096000, 1704103200),
        ]
    );
}

#[test]
fn unreadable_document_is_malformed() {
    assert_eq!(parse_feed("").err(), Some(FeedError::Malformed));
    assert_eq!(parse_feed("hello there\r\n").err(), Some(FeedError::Malformed));
}
