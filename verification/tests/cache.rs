use mediainfo::cache::get_cache_file;
use mediainfo::cache::save_to_cache;
use mediainfo::cache::signature_string;
use mediainfo::cache::Cache;
use mediainfo::fields::format_probe_output;
use mediainfo::record::Container;
use mediainfo::record::ProbeRecord;
use mediainfo::record::Stream;

fn sample_record() -> ProbeRecord {
    ProbeRecord {
        streams: vec![Stream {
            codec_type: "video".to_string(),
            codec_name: Some("h264".to_string()),
            profile: Some("High".to_string()),
            width: Some(1920),
            height: Some(1080),
            r_frame_rate: Some("25/1".to_string()),
            bit_rate: None,
            pix_fmt: Some("yuv420p".to_string()),
            channels: None,
        }],
        container: Container {
            filename: "sample.mp4".to_string(),
            size: "1610612736".to_string(),
            duration: "3600".to_string(),
            bit_rate: Some("5000000".to_string()),
        },
    }
}

#[test]
fn signature_formats_size_and_mtime() {
    assert_eq!(signature_string(100, 200), "100-200");
    assert_eq!(signature_string(0, 0), "0-0");
}

#[test]
fn cache_file_under_home() {
    assert_eq!(
        get_cache_file("/home/user"),
        "/home/user/.mediainfo/cache/cache.json"
    );
}

#[test]
fn cold_cache_misses() {
    let cache = Cache::new();
    assert!(cache.get("/videos/sample.mp4", "100-200").is_none());
}

#[test]
fn miss_then_hit_returns_identical_record() {
    // first probe: a miss, so the external prober runs exactly once
    let mut cache = Cache::new();
    let identity = "/videos/sample.mp4";
    let signature = signature_string(1_610_612_736, 1_700_000_000);
    assert!(cache.get(identity, &signature).is_none());

    let probed = sample_record();
    save_to_cache(
        &mut cache,
        identity.to_string(),
        signature.clone(),
        probed.clone(),
    );

    // second probe, unchanged file: a hit, no further prober run
    let hit = cache.get(identity, &signature).expect("expected a cache hit");
    assert_eq!(*hit, probed);

    // and the display row built from the cached record is the same
    let fresh_row = format_probe_output("sample.mp4", &probed, 65);
    let cached_row = format_probe_output("sample.mp4", hit, 65);
    assert_eq!(fresh_row, cached_row);
    assert_eq!(fresh_row[2], "01:00:00");
    assert_eq!(fresh_row[5], "1920x1080");
}

#[test]
fn changed_signature_invalidates() {
    let mut cache = Cache::new();
    let identity = "/videos/sample.mp4";
    let old_sig = signature_string(1_610_612_736, 1_700_000_000);
    save_to_cache(
        &mut cache,
        identity.to_string(),
        old_sig.clone(),
        sample_record(),
    );
    // same size, later mtime
    let touched = signature_string(1_610_612_736, 1_700_000_999);
    assert!(cache.get(identity, &touched).is_none());
    // same mtime, different size
    let grown = signature_string(1_610_612_737, 1_700_000_000);
    assert!(cache.get(identity, &grown).is_none());
    // the unchanged signature still hits
    assert!(cache.get(identity, &old_sig).is_some());
}

#[test]
fn put_overwrites_existing_entry() {
    let mut cache = Cache::new();
    let identity = "/videos/sample.mp4";
    let sig1 = signature_string(1, 1);
    let sig2 = signature_string(2, 2);
    save_to_cache(&mut cache, identity.to_string(), sig1.clone(), sample_record());
    let mut newer = sample_record();
    newer.container.duration = "125".to_string();
    save_to_cache(&mut cache, identity.to_string(), sig2.clone(), newer);
    assert_eq!(cache.len(), 1);
    assert!(cache.get(identity, &sig1).is_none());
    let hit = cache.get(identity, &sig2).expect("expected a hit");
    assert_eq!(hit.container.duration, "125");
}

#[test]
fn distinct_identities_coexist() {
    let mut cache = Cache::new();
    let sig = signature_string(5, 5);
    save_to_cache(&mut cache, "/a.mp4".to_string(), sig.clone(), sample_record());
    save_to_cache(&mut cache, "/b.mp4".to_string(), sig.clone(), sample_record());
    assert_eq!(cache.len(), 2);
    assert!(cache.get("/a.mp4", &sig).is_some());
    assert!(cache.get("/b.mp4", &sig).is_some());
    let first = cache.entry_at(0);
    assert_eq!(first.0, "/a.mp4");
}
