use mediainfo::media::is_media_file;
use mediainfo::query::parse_bitrate;
use mediainfo::query::parse_duration_to_secs;
use mediainfo::query::parse_human_duration;
use mediainfo::query::parse_size;
use mediainfo::query::should_include_row;
use mediainfo::query::sort_index_of;
use mediainfo::sort::sort_rows;

fn row10(cells: &[&str]) -> Vec<String> {
    assert_eq!(cells.len(), 10);
    cells.iter().map(|c| c.to_string()).collect()
}

fn bitrate_row(name: &str, bitrate: &str) -> Vec<String> {
    row10(&[name, "", "", "", bitrate, "", "", "", "", ""])
}

fn duration_row(name: &str, duration: &str) -> Vec<String> {
    row10(&[name, "", duration, "", "", "", "", "", "", ""])
}

#[test]
fn parse_size_units() {
    assert_eq!(parse_size("1.50 GB"), 1_610_612_736);
    assert_eq!(parse_size("2.00 MB"), 2_097_152);
    assert_eq!(parse_size("1.00 KB"), 1_024);
    assert_eq!(parse_size("512 B"), 512);
}

#[test]
fn parse_size_malformed_is_zero() {
    assert_eq!(parse_size("abc"), 0);
    assert_eq!(parse_size("5 XB"), 0);
    assert_eq!(parse_size("5"), 0);
    assert_eq!(parse_size("1 2 GB"), 0);
}

#[test]
fn parse_duration_colon_forms() {
    assert_eq!(parse_duration_to_secs("01:02:03"), 3_723_000_000);
    assert_eq!(parse_duration_to_secs("02:05"), 125_000_000);
    assert_eq!(parse_duration_to_secs("90"), 0);
    assert_eq!(parse_duration_to_secs("aa:bb"), 0);
}

#[test]
fn parse_bitrate_leading_token() {
    assert_eq!(parse_bitrate("3.50 Mbps"), Some(3_500_000));
    assert_eq!(parse_bitrate("7.20 Mbps"), Some(7_200_000));
    assert_eq!(parse_bitrate(""), None);
    assert_eq!(parse_bitrate("fast Mbps"), None);
}

#[test]
fn human_duration_shorthand() {
    assert_eq!(parse_human_duration("1h30m"), Some(5_400_000_000));
    assert_eq!(parse_human_duration("2min"), Some(120_000_000));
    assert_eq!(parse_human_duration("45s"), Some(45_000_000));
    assert_eq!(parse_human_duration("90"), Some(90_000_000));
    assert_eq!(parse_human_duration("1h2m3s"), Some(3_723_000_000));
}

#[test]
fn human_duration_m_then_i_without_n_drops_the_number() {
    // `mi` without a following `n` consumes both letters and loses
    // the pending number
    assert_eq!(parse_human_duration("1mi"), Some(0));
    assert_eq!(parse_human_duration("1mi30s"), Some(30_000_000));
}

#[test]
fn human_duration_rejects_junk() {
    assert_eq!(parse_human_duration("h30"), None);
    assert_eq!(parse_human_duration("1x"), None);
    assert_eq!(parse_human_duration("1.5h"), None);
}

#[test]
fn filter_bitrate_threshold() {
    let low = bitrate_row("low.mkv", "3.50 Mbps");
    let high = bitrate_row("high.mkv", "7.20 Mbps");
    let filters = vec!["bitrate:>:5".to_string()];
    assert!(!should_include_row(&low, &filters));
    assert!(should_include_row(&high, &filters));
}

#[test]
fn filter_duration_with_shorthand() {
    let long = duration_row("long.mkv", "02:00:00");
    let short = duration_row("short.mkv", "01:00:00");
    let filters = vec!["duration:>:1h30m".to_string()];
    assert!(should_include_row(&long, &filters));
    assert!(!should_include_row(&short, &filters));
}

#[test]
fn filter_size_threshold_in_bytes() {
    let big = row10(&["big.mkv", "1.50 GB", "", "", "", "", "", "", "", ""]);
    let small = row10(&["small.mkv", "900.00 MB", "", "", "", "", "", "", "", ""]);
    let filters = vec!["size:>:1000000000".to_string()];
    assert!(should_include_row(&big, &filters));
    assert!(!should_include_row(&small, &filters));
}

#[test]
fn filter_filename_substring_case_insensitive() {
    let row = row10(&["My.Movie.MKV", "", "", "", "", "", "", "", "", ""]);
    assert!(should_include_row(&row, &vec!["filename:movie".to_string()]));
    assert!(!should_include_row(&row, &vec!["filename:series".to_string()]));
}

#[test]
fn filter_conjunction() {
    let row = row10(&["a.mkv", "", "02:00:00", "", "7.20 Mbps", "", "", "", "", ""]);
    let both = vec!["bitrate:>:5".to_string(), "duration:>:1h".to_string()];
    assert!(should_include_row(&row, &both));
    let mixed = vec!["bitrate:>:5".to_string(), "duration:>:3h".to_string()];
    assert!(!should_include_row(&row, &mixed));
}

#[test]
fn no_filters_keeps_everything() {
    let row = bitrate_row("x", "");
    assert!(should_include_row(&row, &Vec::new()));
}

#[test]
fn fail_open_wrong_token_count() {
    let low = bitrate_row("low.mkv", "3.50 Mbps");
    assert!(should_include_row(&low, &vec!["bitrate:5".to_string()]));
    assert!(should_include_row(&low, &vec!["bitrate:>:5:extra".to_string()]));
}

#[test]
fn fail_open_unknown_operator_or_column() {
    let low = bitrate_row("low.mkv", "3.50 Mbps");
    assert!(should_include_row(&low, &vec!["bitrate:>=:5".to_string()]));
    assert!(should_include_row(&low, &vec!["loudness:>:5".to_string()]));
}

#[test]
fn fail_open_does_not_mask_good_filters() {
    let low = bitrate_row("low.mkv", "3.50 Mbps");
    let filters = vec!["bogus!!".to_string(), "bitrate:>:5".to_string()];
    assert!(!should_include_row(&low, &filters));
}

#[test]
fn sort_index_names() {
    assert_eq!(sort_index_of("filename"), 0);
    assert_eq!(sort_index_of("size"), 1);
    assert_eq!(sort_index_of("duration"), 2);
    assert_eq!(sort_index_of("fps"), 3);
    assert_eq!(sort_index_of("bitrate"), 4);
    assert_eq!(sort_index_of("resolution"), 5);
    assert_eq!(sort_index_of("format"), 6);
    assert_eq!(sort_index_of("profile"), 7);
    assert_eq!(sort_index_of("depth"), 8);
    assert_eq!(sort_index_of("audio"), 9);
    assert_eq!(sort_index_of("nonsense"), 4);
}

fn size_row(name: &str, size: &str) -> Vec<String> {
    row10(&[name, size, "", "", "", "", "", "", "", ""])
}

fn names(rows: &[Vec<String>]) -> Vec<String> {
    rows.iter().map(|r| r[0].clone()).collect()
}

#[test]
fn sort_by_size_ascending() {
    let rows = vec![
        size_row("b", "2.00 MB"),
        size_row("a", "1.00 MB"),
        size_row("c", "3.00 MB"),
    ];
    let sorted = sort_rows(rows, 1, true);
    assert_eq!(names(&sorted), vec!["a", "b", "c"]);
}

#[test]
fn sort_is_stable_on_equal_keys() {
    let rows = vec![
        size_row("first", "1.00 MB"),
        size_row("big", "2.00 MB"),
        size_row("second", "1.00 MB"),
        size_row("third", "1.00 MB"),
    ];
    let sorted = sort_rows(rows.clone(), 1, true);
    assert_eq!(names(&sorted), vec!["first", "second", "third", "big"]);
    let sorted_desc = sort_rows(rows, 1, false);
    // equal keys keep their incoming order under the mirrored
    // comparator too
    assert_eq!(names(&sorted_desc), vec!["big", "first", "second", "third"]);
}

#[test]
fn descending_reverses_ascending_for_distinct_keys() {
    let rows = vec![
        size_row("mid", "2.00 MB"),
        size_row("small", "1.00 MB"),
        size_row("large", "3.00 MB"),
    ];
    let asc = sort_rows(rows.clone(), 1, true);
    let mut desc = sort_rows(rows, 1, false);
    desc.reverse();
    assert_eq!(names(&asc), names(&desc));
}

#[test]
fn sort_by_filename_is_lexicographic() {
    let rows = vec![
        size_row("beta", ""),
        size_row("alpha", ""),
        size_row("gamma", ""),
    ];
    let sorted = sort_rows(rows, 0, true);
    assert_eq!(names(&sorted), vec!["alpha", "beta", "gamma"]);
}

#[test]
fn unparseable_numeric_keys_sort_as_zero() {
    let rows = vec![
        size_row("junk", "weird"),
        size_row("real", "1.00 KB"),
        size_row("empty", ""),
    ];
    let sorted = sort_rows(rows, 1, true);
    // both unparseable keys count zero and stay in incoming order
    assert_eq!(names(&sorted), vec!["junk", "empty", "real"]);
}

#[test]
fn media_extensions_recognised() {
    assert!(is_media_file("movie.mkv"));
    assert!(is_media_file("MOVIE.MKV"));
    assert!(is_media_file("clip.m2ts"));
    assert!(is_media_file("song.opus"));
}

#[test]
fn non_media_names_rejected() {
    assert!(!is_media_file("notes.txt"));
    assert!(!is_media_file("noextension"));
    assert!(!is_media_file(".mp4"));
    assert!(!is_media_file("archive.tar.gz"));
}
