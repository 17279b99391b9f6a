use playtime_tracker::clock::{keep_sortable, timestamp_text};

#[test]
fn timestamp_text_of_the_epoch() {
    assert_eq!(timestamp_text(0), Some("1970-01-01T00:00:00+00:00".to_string()));
}

#[test]
fn timestamp_text_of_known_instants() {
    assert_eq!(timestamp_text(1_431_648_000), Some("2015-05-15T00:00:00+00:00".to_string()));
    assert_eq!(timestamp_text(1_700_000_000), Some("2023-11-14T22:13:20+00:00".to_string()));
    assert_eq!(timestamp_text(-1), Some("1969-12-31T23:59:59+00:00".to_string()));
    assert_eq!(timestamp_text(253_402_300_799), Some("9999-12-31T23:59:59+00:00".to_string()));
}

#[test]
fn timestamp_text_is_missing_outside_the_range_of_dates() {
    assert_eq!(timestamp_text(i64::MAX), None);
    assert_eq!(timestamp_text(i64::MIN), None);
}

#[test]
fn timestamp_text_is_missing_for_years_of_another_width() {
    assert_eq!(timestamp_text(-62_167_219_200), Some("0000-01-01T00:00:00+00:00".to_string()));
    assert_eq!(timestamp_text(-62_167_219_201), None);
    assert_eq!(timestamp_text(253_402_300_800), None);
}

#[test]
fn keep_sortable_keeps_texts_of_one_width() {
    let text = "2023-11-14T22:13:20+00:00".to_string();
    assert_eq!(keep_sortable(Some(text.clone())), Some(text));
    assert_eq!(keep_sortable(Some("+10000-01-01T00:00:00+00:00".to_string())), None);
    assert_eq!(keep_sortable(Some("-0001-12-31T23:59:59+00:00".to_string())), None);
    assert_eq!(keep_sortable(Some(String::new())), None);
    assert_eq!(keep_sortable(Some("ääää-ää-ääTää:ää:ää+ää:ää".to_string())), Some("ääää-ää-ääTää:ää:ää+ää:ää".to_string()));
    assert_eq!(keep_sortable(None), None);
}

#[test]
fn timestamp_texts_sort_as_their_instants() {
    let instants = [0_i64, 59, 60, 86_399, 86_400, 951_782_400, 1_700_000_000, 1_700_000_001, 4_102_444_800];
    for pair in instants.windows(2) {
        let earlier = timestamp_text(pair[0]).unwrap();
        let later = timestamp_text(pair[1]).unwrap();
        assert!(earlier < later);
        assert_eq!(earlier.len(), 25);
    }
}
