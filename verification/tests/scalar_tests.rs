use bookmarks_collection::tags::Tags;
use bookmarks_collection::timestamp::Timestamp;

#[test]
fn tags_collapse_duplicates() {
    let t = Tags::decode("a,b,a");
    assert_eq!(t.items, vec!["a", "b"]);
    let joined = t.encode();
    assert_eq!(joined, "a,b");
}

#[test]
fn tags_empty_string_is_one_empty_tag() {
    let t = Tags::decode("");
    assert_eq!(t.items, vec![""]);
    assert_eq!(t.encode(), "");
}

#[test]
fn tags_single_member() {
    let t = Tags::decode("only");
    assert_eq!(t.items, vec!["only"]);
    assert_eq!(t.encode(), "only");
}

#[test]
fn tags_keep_first_occurrence_order() {
    let t = Tags::decode("z,a,z,b,a,c");
    assert_eq!(t.items, vec!["z", "a", "b", "c"]);
    assert_eq!(t.encode(), "z,a,b,c");
}

#[test]
fn tags_trailing_separator_keeps_empty_member() {
    let t = Tags::decode("a,");
    assert_eq!(t.items, vec!["a", ""]);
    assert_eq!(t.encode(), "a,");
}

#[test]
fn timestamp_zero_is_epoch() {
    let t = Timestamp::from_micros(0);
    assert_eq!(t.secs, 0);
    assert_eq!(t.micros, 0);
    assert_eq!(t.to_micros(), 0);
}

#[test]
fn timestamp_large_value_round_trips() {
    let t = Timestamp::from_micros(1601467891225000);
    assert_eq!(t.secs, 1601467891);
    assert_eq!(t.micros, 225000);
    assert_eq!(t.to_micros(), 1601467891225000);
}

#[test]
fn timestamp_negative_values_round_trip() {
    let t = Timestamp::from_micros(-1);
    assert_eq!(t.secs, -1);
    assert_eq!(t.micros, 999_999);
    assert_eq!(t.to_micros(), -1);

    let t = Timestamp::from_micros(-1_000_000);
    assert_eq!(t.secs, -1);
    assert_eq!(t.micros, 0);
    assert_eq!(t.to_micros(), -1_000_000);
}

#[test]
fn timestamp_extremes_round_trip() {
    assert_eq!(Timestamp::from_micros(i64::MIN).to_micros(), i64::MIN);
    assert_eq!(Timestamp::from_micros(i64::MAX).to_micros(), i64::MAX);
}
