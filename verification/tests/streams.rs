use redis_starter_rust::database::stream::{
    next_entry_id, parse_range, EntryID, IdRange, RadixTreeStore, StreamEntry, StreamError,
};

fn b(s: &str) -> Vec<u8> {
    s.as_bytes().to_vec()
}

fn id(ms: u128, seq: u64) -> EntryID {
    EntryID { milliseconds_time: ms, sequence_number: seq }
}

fn fields(pairs: &[(&str, &str)]) -> Vec<(Vec<u8>, Vec<u8>)> {
    pairs.iter().map(|(k, v)| (b(k), b(v))).collect()
}

#[test]
fn an_id_prints_as_time_and_sequence() {
    assert_eq!(id(1, 1).print(), b("1-1"));
    assert_eq!(id(0, 0).print(), b("0-0"));
    assert_eq!(id(1526985054069, 3).print(), b("1526985054069-3"));
    assert_eq!(
        id(u128::MAX, u64::MAX).print(),
        b("340282366920938463463374607431768211455-18446744073709551615")
    );
    assert_eq!(EntryID::default(), id(0, 0));
}

#[test]
fn ids_are_ordered_by_time_then_sequence() {
    assert!(id(1, 5).is_below(&id(2, 0)));
    assert!(id(1, 5).is_below(&id(1, 6)));
    assert!(!id(1, 5).is_below(&id(1, 5)));
    assert!(!id(2, 0).is_below(&id(1, 9)));
}

#[test]
fn an_explicit_id_must_stand_above_the_last() {
    assert_eq!(next_entry_id(id(0, 0), b"1-1", 0), Ok(id(1, 1)));
    assert_eq!(next_entry_id(id(1, 1), b"1-2", 0), Ok(id(1, 2)));
    assert_eq!(next_entry_id(id(1, 1), b"2-0", 0), Ok(id(2, 0)));
    assert_eq!(next_entry_id(id(1, 1), b"1-1", 0), Err(StreamError::SmallerThanTop));
    assert_eq!(next_entry_id(id(1, 1), b"1-0", 0), Err(StreamError::SmallerThanTop));
    assert_eq!(next_entry_id(id(1, 1), b"0-5", 0), Err(StreamError::SmallerThanTop));
    assert_eq!(next_entry_id(id(0, 0), b"0-0", 0), Err(StreamError::ZeroError));
    assert_eq!(next_entry_id(id(5, 5), b"0-0", 0), Err(StreamError::ZeroError));
}

#[test]
fn an_id_that_cannot_be_read_is_not_valid() {
    for text in [&b"abc"[..], b"", b"12", b"1-", b"-1", b"1-x", b"x-1", b"1-2-3", b"**", b"1--1"] {
        assert_eq!(next_entry_id(id(0, 0), text, 0), Err(StreamError::NotValid), "{:?}", text);
    }
    assert_eq!(
        next_entry_id(id(0, 0), b"340282366920938463463374607431768211456-0", 0),
        Err(StreamError::NotValid)
    );
    assert_eq!(
        next_entry_id(id(0, 0), b"1-18446744073709551616", 0),
        Err(StreamError::NotValid)
    );
}

#[test]
fn the_sequence_is_chosen_where_a_star_stands_for_it() {
    assert_eq!(next_entry_id(id(0, 0), b"0-*", 0), Ok(id(0, 1)));
    assert_eq!(next_entry_id(id(0, 0), b"5-*", 0), Ok(id(5, 0)));
    assert_eq!(next_entry_id(id(5, 0), b"5-*", 0), Ok(id(5, 1)));
    assert_eq!(next_entry_id(id(5, 7), b"5-*", 0), Ok(id(5, 8)));
    assert_eq!(next_entry_id(id(5, 7), b"6-*", 0), Ok(id(6, 0)));
    assert_eq!(next_entry_id(id(5, 7), b"4-*", 0), Err(StreamError::SmallerThanTop));
    assert_eq!(next_entry_id(id(5, u64::MAX), b"5-*", 0), Err(StreamError::NotValid));
}

#[test]
fn a_star_alone_takes_the_clock() {
    assert_eq!(next_entry_id(id(0, 0), b"*", 1526985054069), Ok(id(1526985054069, 0)));
    assert_eq!(next_entry_id(id(10, 3), b"*", 11), Ok(id(11, 0)));
    assert_eq!(next_entry_id(id(10, 3), b"*", 10), Err(StreamError::SmallerThanTop));
    assert_eq!(next_entry_id(id(10, 3), b"*", 9), Err(StreamError::SmallerThanTop));
    assert_eq!(next_entry_id(id(0, 0), b"*", 0), Err(StreamError::SmallerThanTop));
}

#[test]
fn appended_ids_come_out_in_increasing_order() {
    let mut store = RadixTreeStore::new();
    let mut last = id(0, 0);
    let attempts: [(&[u8], u128); 9] = [
        (b"1-1", 0),
        (b"1-*", 0),
        (b"1-1", 0),
        (b"*", 50),
        (b"49-*", 0),
        (b"50-*", 0),
        (b"*", 50),
        (b"0-0", 0),
        (b"51-7", 0),
    ];
    let mut given = Vec::new();
    for (text, now) in attempts {
        if let Ok(new) = store.insert(b"s", text, vec![], now) {
            assert!(last.is_below(&new));
            assert_eq!(store.last_id(b"s"), new);
            last = new;
            given.push(new);
        }
    }
    assert_eq!(given, vec![id(1, 1), id(1, 2), id(50, 0), id(50, 1), id(51, 7)]);
}

#[test]
fn each_stream_has_its_own_last_id() {
    let mut store = RadixTreeStore::new();
    assert_eq!(store.insert(b"a", b"5-5", vec![], 0), Ok(id(5, 5)));
    assert_eq!(store.insert(b"b", b"1-1", vec![], 0), Ok(id(1, 1)));
    assert_eq!(store.last_id(b"a"), id(5, 5));
    assert_eq!(store.last_id(b"b"), id(1, 1));
    assert_eq!(store.last_id(b"c"), id(0, 0));
    assert_eq!(store.new_entry_id(b"b", b"1-*", 0), Ok(id(1, 2)));
    assert_eq!(store.new_entry_id(b"c", b"0-*", 0), Ok(id(0, 1)));
}

#[test]
fn a_refused_append_changes_nothing() {
    let mut store = RadixTreeStore::new();
    assert_eq!(store.insert(b"s", b"0-0", fields(&[("f", "v")]), 0), Err(StreamError::ZeroError));
    assert_eq!(store.check_key(b"s"), None);
    store.insert(b"s", b"2-2", fields(&[("f", "v")]), 0).unwrap();
    assert_eq!(
        store.insert(b"s", b"2-2", fields(&[("g", "w")]), 0),
        Err(StreamError::SmallerThanTop)
    );
    assert_eq!(store.xrange(b"s", b"-", b"+").unwrap().len(), 1);
}

fn three() -> RadixTreeStore {
    let mut store = RadixTreeStore::new();
    store.insert(b"s", b"1-1", fields(&[("a", "1")]), 0).unwrap();
    store.insert(b"s", b"1-2", fields(&[("b", "2")]), 0).unwrap();
    store.insert(b"s", b"3-0", fields(&[("c", "3"), ("d", "4")]), 0).unwrap();
    store
}

fn ids(entries: &[StreamEntry]) -> Vec<EntryID> {
    entries.iter().map(|e| e.entry_id).collect()
}

#[test]
fn a_range_holds_its_entries_in_order() {
    let store = three();
    let all = store.xrange(b"s", b"-", b"+").unwrap();
    assert_eq!(
        all,
        vec![
            StreamEntry { key: b("s"), entry_id: id(1, 1), data: fields(&[("a", "1")]) },
            StreamEntry { key: b("s"), entry_id: id(1, 2), data: fields(&[("b", "2")]) },
            StreamEntry { key: b("s"), entry_id: id(3, 0), data: fields(&[("c", "3"), ("d", "4")]) },
        ]
    );
    assert_eq!(ids(&store.xrange(b"s", b"1-2", b"+").unwrap()), vec![id(1, 2), id(3, 0)]);
    assert_eq!(ids(&store.xrange(b"s", b"1-2", b"++").unwrap()), vec![id(3, 0)]);
    assert_eq!(ids(&store.xrange(b"s", b"1-1", b"1-2").unwrap()), vec![id(1, 1), id(1, 2)]);
    assert_eq!(ids(&store.xrange(b"s", b"-", b"1-1").unwrap()), vec![id(1, 1)]);
    assert_eq!(ids(&store.xrange(b"s", b"-", b"++").unwrap()), vec![id(1, 1), id(1, 2), id(3, 0)]);
}

#[test]
fn a_bare_time_bounds_a_range() {
    let store = three();
    assert_eq!(ids(&store.xrange(b"s", b"1", b"1").unwrap()), vec![id(1, 1), id(1, 2)]);
    assert_eq!(ids(&store.xrange(b"s", b"2", b"3").unwrap()), vec![id(3, 0)]);
    assert_eq!(ids(&store.xrange(b"s", b"0", b"+").unwrap()).len(), 3);
}

#[test]
fn a_range_reports_its_errors() {
    let store = three();
    assert_eq!(store.xrange(b"t", b"-", b"+"), Err(StreamError::KeyNotFound));
    assert_eq!(store.xrange(b"s", b"4", b"+"), Err(StreamError::NoEntriesInRange));
    assert_eq!(store.xrange(b"s", b"3-0", b"++"), Err(StreamError::NoEntriesInRange));
    assert_eq!(store.xrange(b"s", b"$", b"++"), Err(StreamError::NoEntriesInRange));
    assert_eq!(store.xrange(b"s", b"2-0", b"1-0"), Err(StreamError::NoEntriesInRange));
    assert_eq!(store.xrange(b"s", b"x", b"+"), Err(StreamError::NotValid));
    assert_eq!(store.xrange(b"s", b"-", b"y"), Err(StreamError::NotValid));
    assert_eq!(store.xrange(b"t", b"x", b"y"), Err(StreamError::KeyNotFound));
}

#[test]
fn the_last_id_starts_a_range_at_a_dollar() {
    let store = three();
    assert_eq!(ids(&store.xrange(b"s", b"$", b"+").unwrap()), vec![id(3, 0)]);
}

#[test]
fn bounds_are_read_as_ranges() {
    assert_eq!(
        parse_range(b"-", b"+", id(9, 9)),
        Some(IdRange { low: id(0, 0), open_low: false, high: None })
    );
    assert_eq!(
        parse_range(b"$", b"++", id(9, 9)),
        Some(IdRange { low: id(9, 9), open_low: true, high: None })
    );
    assert_eq!(
        parse_range(b"5", b"7", id(9, 9)),
        Some(IdRange { low: id(5, 0), open_low: false, high: Some(id(7, u64::MAX)) })
    );
    assert_eq!(
        parse_range(b"5-1", b"7-2", id(9, 9)),
        Some(IdRange { low: id(5, 1), open_low: false, high: Some(id(7, 2)) })
    );
    assert_eq!(parse_range(b"+", b"+", id(9, 9)), None);
    assert_eq!(parse_range(b"1", b"-", id(9, 9)), None);
    let r = IdRange { low: id(5, 1), open_low: true, high: Some(id(7, 2)) };
    assert!(!r.has(&id(5, 1)));
    assert!(r.has(&id(5, 2)));
    assert!(r.has(&id(7, 2)));
    assert!(!r.has(&id(7, 3)));
}

#[test]
fn an_entry_is_found_by_its_id() {
    let store = three();
    assert_eq!(
        store.get(b"s", b"1-2"),
        Some(StreamEntry { key: b("s"), entry_id: id(1, 2), data: fields(&[("b", "2")]) })
    );
    assert_eq!(store.get(b"s", b"1-3"), None);
    assert_eq!(store.get(b"s", b"01-2"), None);
    assert_eq!(store.get(b"t", b"1-2"), None);
}

#[test]
fn a_key_is_looked_up_by_its_beginning() {
    let mut store = three();
    assert_eq!(store.check_key(b"s"), Some(b("s")));
    assert_eq!(store.check_key(b"stream"), Some(b("s")));
    assert_eq!(store.check_key(b"t"), None);
    assert_eq!(store.check_key(b""), None);
    store.insert(b"stream", b"1-1", vec![], 0).unwrap();
    assert_eq!(store.check_key(b"stream"), Some(b("s")));
    store.insert(b"ab", b"1-1", vec![], 0).unwrap();
    assert_eq!(store.check_key(b"a"), None);
    assert_eq!(store.check_key(b"abc"), Some(b("ab")));
}

#[test]
fn a_waiting_reader_goes_on_when_a_newer_entry_comes() {
    assert_eq!(RadixTreeStore::check_availability(b"$", id(3, 0), Some(id(3, 1))), Some((id(3, 0), id(3, 1))));
    assert_eq!(RadixTreeStore::check_availability(b"$", id(3, 0), Some(id(3, 0))), None);
    assert_eq!(RadixTreeStore::check_availability(b"$", id(3, 0), None), None);
    assert_eq!(RadixTreeStore::check_availability(b"5-0", id(3, 0), Some(id(4, 0))), None);
    assert_eq!(RadixTreeStore::check_availability(b"5-0", id(3, 0), Some(id(5, 1))), Some((id(3, 0), id(5, 1))));
    assert_eq!(RadixTreeStore::check_availability(b"5", id(3, 0), Some(id(5, 1))), Some((id(3, 0), id(5, 1))));
    assert_eq!(RadixTreeStore::check_availability(b"nonsense", id(3, 0), Some(id(5, 1))), None);
}

#[test]
fn stream_errors_read_as_the_protocol_has_them() {
    assert_eq!(
        StreamError::ZeroError.message(),
        b("ERR The ID specified in XADD must be greater than 0-0")
    );
    assert_eq!(
        StreamError::SmallerThanTop.message(),
        b("ERR The ID specified in XADD is equal or smaller than the target stream top item")
    );
    assert_eq!(
        StreamError::NotValid.message(),
        b("ERR Cannot proess the entry id or it is less than or equal to the last one")
    );
    assert_eq!(StreamError::KeyNotFound.message(), b("ERR The key specified does not exist!"));
    assert_eq!(
        StreamError::NoEntriesInRange.message(),
        b("ERR The stream contains no entries in the range")
    );
}
