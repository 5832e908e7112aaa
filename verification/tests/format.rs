use mediainfo::fields::bitrate_field;
use mediainfo::fields::format_duration;
use mediainfo::fields::format_probe_output;
use mediainfo::fields::format_size;
use mediainfo::fields::fps_field;
use mediainfo::fields::get_bit_depth;
use mediainfo::fields::truncate_middle;
use mediainfo::record::Container;
use mediainfo::record::ProbeRecord;
use mediainfo::record::Stream;

fn video_stream() -> Stream {
    Stream {
        codec_type: "video".to_string(),
        codec_name: Some("hevc".to_string()),
        profile: Some("Main 10".to_string()),
        width: Some(1920),
        height: Some(1080),
        r_frame_rate: Some("30000/1001".to_string()),
        bit_rate: None,
        pix_fmt: Some("yuv420p10le".to_string()),
        channels: None,
    }
}

fn audio_stream() -> Stream {
    Stream {
        codec_type: "audio".to_string(),
        codec_name: Some("aac".to_string()),
        profile: None,
        width: None,
        height: None,
        r_frame_rate: None,
        bit_rate: Some("128000".to_string()),
        pix_fmt: None,
        channels: Some(2),
    }
}

#[test]
fn size_gigabytes() {
    assert_eq!(format_size("1610612736"), "1.50 GB");
}

#[test]
fn size_megabytes() {
    assert_eq!(format_size("1048576"), "1.00 MB");
}

#[test]
fn size_kilobytes() {
    assert_eq!(format_size("1536"), "1.50 KB");
}

#[test]
fn size_bytes() {
    assert_eq!(format_size("512"), "512 B");
}

#[test]
fn size_unparseable_is_empty() {
    assert_eq!(format_size("abc"), "");
    assert_eq!(format_size(""), "");
    assert_eq!(format_size("12.5"), "");
}

#[test]
fn duration_with_hours() {
    assert_eq!(format_duration("3600"), "01:00:00");
    assert_eq!(format_duration("3661"), "01:01:01");
}

#[test]
fn duration_minutes_seconds() {
    assert_eq!(format_duration("125"), "02:05");
    assert_eq!(format_duration("59.9"), "00:59");
}

#[test]
fn duration_unparseable_is_empty() {
    assert_eq!(format_duration("bad"), "");
    assert_eq!(format_duration("12:00"), "");
    assert_eq!(format_duration(""), "");
}

#[test]
fn fps_rational() {
    assert_eq!(fps_field(Some("30000/1001")), "29.97");
    assert_eq!(fps_field(Some("25/1")), "25.00");
}

#[test]
fn fps_zero_denominator_is_empty() {
    assert_eq!(fps_field(Some("30/0")), "");
}

#[test]
fn fps_malformed_is_empty() {
    assert_eq!(fps_field(Some("30")), "");
    assert_eq!(fps_field(Some("a/b")), "");
    assert_eq!(fps_field(None), "");
}

#[test]
fn bitrate_megabits() {
    assert_eq!(bitrate_field(Some("5000000")), "5.00 Mbps");
    assert_eq!(bitrate_field(Some("7200000")), "7.20 Mbps");
    assert_eq!(bitrate_field(None), "");
}

#[test]
fn bit_depth_heuristic() {
    assert_eq!(get_bit_depth(Some("yuv420p10le")), "10bit");
    assert_eq!(get_bit_depth(Some("yuv422p12le")), "12bit");
    assert_eq!(get_bit_depth(Some("yuv420p")), "8bit");
    assert_eq!(get_bit_depth(None), "8bit");
}

#[test]
fn truncate_keeps_short_names() {
    assert_eq!(truncate_middle("short.mp4", 65), "short.mp4");
}

#[test]
fn truncate_collapses_middle() {
    assert_eq!(truncate_middle("abcdefghij", 7), "ab...ij");
}

#[test]
fn truncate_odd_remainder_favors_prefix() {
    assert_eq!(truncate_middle("abcdefghijkl", 8), "abc...kl");
}

#[test]
fn full_row_with_video_and_audio() {
    let probe = ProbeRecord {
        streams: vec![video_stream(), audio_stream()],
        container: Container {
            filename: "sample.mkv".to_string(),
            size: "1610612736".to_string(),
            duration: "3600".to_string(),
            bit_rate: Some("5000000".to_string()),
        },
    };
    let row = format_probe_output("sample.mkv", &probe, 65);
    assert_eq!(
        row,
        vec![
            "sample.mkv",
            "1.50 GB",
            "01:00:00",
            "29.97",
            "5.00 Mbps",
            "1920x1080",
            "hevc",
            "Main 10",
            "10bit",
            "2CH 128k",
        ]
    );
}

#[test]
fn audio_only_row_has_empty_video_fields() {
    let probe = ProbeRecord {
        streams: vec![audio_stream()],
        container: Container {
            filename: "song.mp3".to_string(),
            size: "1048576".to_string(),
            duration: "125".to_string(),
            bit_rate: Some("128000".to_string()),
        },
    };
    let row = format_probe_output("song.mp3", &probe, 65);
    assert_eq!(
        row,
        vec!["song.mp3", "1.00 MB", "02:05", "", "", "", "", "", "", "2CH 128k"]
    );
}

#[test]
fn first_video_stream_wins() {
    let mut second = video_stream();
    second.codec_name = Some("h264".to_string());
    second.pix_fmt = Some("yuv420p".to_string());
    let probe = ProbeRecord {
        streams: vec![video_stream(), second],
        container: Container {
            filename: "two.mkv".to_string(),
            size: "1048576".to_string(),
            duration: "60".to_string(),
            bit_rate: None,
        },
    };
    let row = format_probe_output("two.mkv", &probe, 65);
    assert_eq!(row[6], "hevc");
    assert_eq!(row[8], "10bit");
    assert_eq!(row[4], "");
}

#[test]
fn audio_without_bitrate_has_no_suffix() {
    let probe = ProbeRecord {
        streams: vec![Stream {
            codec_type: "audio".to_string(),
            codec_name: None,
            profile: None,
            width: None,
            height: None,
            r_frame_rate: None,
            bit_rate: None,
            pix_fmt: None,
            channels: Some(6),
        }],
        container: Container {
            filename: "a.flac".to_string(),
            size: "1024".to_string(),
            duration: "10".to_string(),
            bit_rate: None,
        },
    };
    let row = format_probe_output("a.flac", &probe, 65);
    assert_eq!(row[9], "6CH");
}

#[test]
fn missing_dimensions_default_to_zero() {
    let mut video = video_stream();
    video.width = None;
    video.height = None;
    let probe = ProbeRecord {
        streams: vec![video],
        container: Container {
            filename: "v.mkv".to_string(),
            size: "1024".to_string(),
            duration: "10".to_string(),
            bit_rate: None,
        },
    };
    let row = format_probe_output("v.mkv", &probe, 65);
    assert_eq!(row[5], "0x0");
}

#[test]
fn size_round_trip_within_precision() {
    let shown = format_size("1500000000");
    assert_eq!(shown, "1.40 GB");
    let back = mediainfo::query::parse_size(&shown);
    let diff = if back > 1_500_000_000 {
        back - 1_500_000_000
    } else {
        1_500_000_000 - back
    };
    // within 0.01 GB
    assert!(diff <= 10_737_418);
}

#[test]
fn duration_round_trip_exact() {
    let shown = format_duration("7261");
    assert_eq!(shown, "02:01:01");
    assert_eq!(mediainfo::query::parse_duration_to_secs(&shown), 7_261_000_000);
}

#[test]
fn bitrate_round_trip_within_precision() {
    let shown = bitrate_field(Some("7234567"));
    assert_eq!(shown, "7.23 Mbps");
    let back = mediainfo::query::parse_bitrate(&shown).unwrap();
    // micro-Mbps, within half of one displayed hundredth
    let diff = if back > 7_234_567 { back - 7_234_567 } else { 7_234_567 - back };
    assert!(diff <= 5_000);
}

#[test]
fn fps_round_trip_exact_at_display_precision() {
    let shown = fps_field(Some("30000/1001"));
    let back = mediainfo::query::parse_size(&format!("{} XB", shown));
    // an unknown unit never parses: guards against accidental token reuse
    assert_eq!(back, 0);
    let direct = mediainfo::query::parse_duration_to_secs(&shown);
    // a lone number is not a duration
    assert_eq!(direct, 0);
    // the fps column re-parses as a plain decimal via the filter path
    let row = ten(&["f", "", "", &shown, "", "", "", "", "", ""]);
    let keep = mediainfo::query::should_include_row(&row, &vec!["fps:>:29.96".to_string()]);
    let drop = mediainfo::query::should_include_row(&row, &vec!["fps:>:29.98".to_string()]);
    assert!(keep);
    assert!(!drop);
}

fn ten(cells: &[&str]) -> Vec<String> {
    assert_eq!(cells.len(), 10);
    cells.iter().map(|c| c.to_string()).collect()
}
