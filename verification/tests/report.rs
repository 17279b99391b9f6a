use playtime_tracker::report::{format_duration, format_line, report, split_duration, Duration};
use playtime_tracker::store::ProgramTotal;

#[test]
fn split_duration_of_an_hour_a_minute_and_a_second() {
    assert_eq!(split_duration(3661), Duration { hours: 1, minutes: 1, seconds: 1 });
}

#[test]
fn split_duration_at_the_edges() {
    assert_eq!(split_duration(0), Duration { hours: 0, minutes: 0, seconds: 0 });
    assert_eq!(split_duration(59), Duration { hours: 0, minutes: 0, seconds: 59 });
    assert_eq!(split_duration(60), Duration { hours: 0, minutes: 1, seconds: 0 });
    assert_eq!(split_duration(3599), Duration { hours: 0, minutes: 59, seconds: 59 });
    assert_eq!(split_duration(3600), Duration { hours: 1, minutes: 0, seconds: 0 });
    assert_eq!(split_duration(86_399), Duration { hours: 23, minutes: 59, seconds: 59 });
    assert_eq!(split_duration(360_000), Duration { hours: 100, minutes: 0, seconds: 0 });
    assert_eq!(
        split_duration(i64::MAX),
        Duration { hours: 2_562_047_788_015_215, minutes: 30, seconds: 7 }
    );
}

#[test]
fn split_duration_of_negative_seconds_rounds_toward_zero() {
    assert_eq!(split_duration(-3661), Duration { hours: -1, minutes: -1, seconds: -1 });
    assert_eq!(split_duration(-59), Duration { hours: 0, minutes: 0, seconds: -59 });
    assert_eq!(
        split_duration(i64::MIN),
        Duration { hours: -2_562_047_788_015_215, minutes: -30, seconds: -8 }
    );
}

#[test]
fn format_duration_writes_hours_minutes_and_seconds() {
    assert_eq!(format_duration(3661), "1h 1m 1s");
    assert_eq!(format_duration(0), "0h 0m 0s");
    assert_eq!(format_duration(42), "0h 0m 42s");
    assert_eq!(format_duration(7_325), "2h 2m 5s");
    assert_eq!(format_duration(360_000), "100h 0m 0s");
    assert_eq!(format_duration(-3661), "-1h -1m -1s");
    assert_eq!(format_duration(i64::MAX), "2562047788015215h 30m 7s");
    assert_eq!(format_duration(i64::MIN), "-2562047788015215h -30m -8s");
}

#[test]
fn format_duration_agrees_with_the_formula() {
    for secs in [1_i64, 61, 3_600, 3_661, 12_345, 86_400, 987_654_321] {
        let expected = format!("{}h {}m {}s", secs / 3600, (secs % 3600) / 60, secs % 60);
        assert_eq!(format_duration(secs), expected);
    }
}

#[test]
fn format_line_names_the_program() {
    assert_eq!(format_line("game", 3661), "- game: 1h 1m 1s");
    assert_eq!(format_line("", 0), "- : 0h 0m 0s");
    assert_eq!(format_line("spiel für zwei", 60), "- spiel für zwei: 0h 1m 0s");
}

#[test]
fn report_has_a_heading_and_a_line_for_each_program() {
    let totals = vec![
        ProgramTotal { program_name: "game".to_string(), seconds: 90 },
        ProgramTotal { program_name: "editor".to_string(), seconds: 3_662 },
    ];
    assert_eq!(
        report(&totals),
        vec![
            "Playtime report:".to_string(),
            "- game: 0h 1m 30s".to_string(),
            "- editor: 1h 1m 2s".to_string(),
        ]
    );
    assert_eq!(report(&vec![]), vec!["Playtime report:".to_string()]);
}
