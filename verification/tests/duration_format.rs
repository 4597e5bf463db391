use wgtui::duration::time_to_english;

#[test]
fn zero_seconds() {
    assert_eq!(time_to_english(0), "0 seconds");
}

#[test]
fn fifty_nine_seconds() {
    assert_eq!(time_to_english(59), "59 seconds");
}

#[test]
fn one_minute_trailing_space() {
    assert_eq!(time_to_english(60), "1 minute ");
}

#[test]
fn one_hour_one_minute_one_second() {
    assert_eq!(time_to_english(3661), "1 hour 1 minute 1 second");
}

#[test]
fn full_decomposition() {
    assert_eq!(time_to_english(90061), "1 day 1 hour 1 minute 1 second");
}

#[test]
fn plural_every_unit() {
    assert_eq!(time_to_english(180122), "2 days 2 hours 2 minutes 2 seconds");
}

#[test]
fn singular_boundary_seconds() {
    assert_eq!(time_to_english(1), "1 second");
    assert_eq!(time_to_english(2), "2 seconds");
}

#[test]
fn singular_boundary_minutes() {
    assert_eq!(time_to_english(60), "1 minute ");
    assert_eq!(time_to_english(120), "2 minutes ");
}

#[test]
fn singular_boundary_hours() {
    assert_eq!(time_to_english(3600), "1 hour ");
    assert_eq!(time_to_english(7200), "2 hours ");
}

#[test]
fn singular_boundary_days() {
    assert_eq!(time_to_english(86400), "1 day ");
    assert_eq!(time_to_english(172800), "2 days ");
}

#[test]
fn hours_and_seconds_skip_minutes() {
    assert_eq!(time_to_english(3605), "1 hour 5 seconds");
}
