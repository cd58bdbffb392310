use yip::differential::DiffMode;
use yip::tiers::{format_number, Tier, TierCodec};

#[test]
fn for_bitrate_mapping() {
    assert_eq!(Tier::for_bitrate(200), Tier::High);
    assert_eq!(Tier::for_bitrate(128), Tier::Standard);
    assert_eq!(Tier::for_bitrate(256), Tier::Ultra);
    assert_eq!(Tier::for_bitrate(300), Tier::Ultra);
    assert_eq!(Tier::for_bitrate(96), Tier::Medium);
    assert_eq!(Tier::for_bitrate(64), Tier::Low);
    assert_eq!(Tier::for_bitrate(48), Tier::Minimal);
    assert_eq!(Tier::for_bitrate(32), Tier::Minimal);
}

#[test]
fn all_tiers_display() {
    for tier in Tier::all() {
        let display = tier.to_string();
        println!("{}", display);
        assert!(!display.is_empty());
    }
}

#[test]
fn throughput_values() {
    assert_eq!(Tier::Ultra.throughput_bps(), 13_500);
    assert_eq!(Tier::Ultra.throughput_bytes(), 1_687);
    assert_eq!(Tier::High.throughput_bps(), 12_200);
    assert_eq!(Tier::High.throughput_bytes(), 1_525);
    assert_eq!(Tier::Standard.throughput_bps(), 9_450);
    assert_eq!(Tier::Standard.throughput_bytes(), 1_181);
    assert_eq!(Tier::Medium.throughput_bps(), 6_100);
    assert_eq!(Tier::Medium.throughput_bytes(), 762);
    assert_eq!(Tier::Low.throughput_bps(), 2_700);
    assert_eq!(Tier::Low.throughput_bytes(), 337);
    assert_eq!(Tier::Minimal.throughput_bps(), 0);
    assert_eq!(Tier::Minimal.throughput_bytes(), 0);
}

#[test]
fn uses_diff_correct() {
    assert!(Tier::Ultra.uses_diff());
    assert!(Tier::High.uses_diff());
    assert!(!Tier::Standard.uses_diff());
    assert!(!Tier::Medium.uses_diff());
    assert!(!Tier::Low.uses_diff());
    assert!(!Tier::Minimal.uses_diff());
}

#[test]
fn is_experimental_correct() {
    assert!(!Tier::Ultra.is_experimental());
    assert!(!Tier::Standard.is_experimental());
    assert!(Tier::Minimal.is_experimental());
}

#[test]
fn tier_display_exact() {
    assert_eq!(Tier::Standard.to_string(), "standard (128kbps): 9,450 bps = 1,181 B/s");
    assert_eq!(Tier::Ultra.to_string(), "ultra (256kbps): 13,500 bps = 1,687 B/s");
    assert_eq!(Tier::Minimal.to_string(), "minimal (48kbps): 0 bps = 0 B/s");
    assert_eq!(Tier::Low.to_string(), "low (64kbps): 2,700 bps = 337 B/s");
}

#[test]
fn format_number_groups() {
    assert_eq!(format_number(0), "0");
    assert_eq!(format_number(999), "999");
    assert_eq!(format_number(1000), "1,000");
    assert_eq!(format_number(1_234_567), "1,234,567");
    assert_eq!(format_number(100_005), "100,005");
}

#[test]
fn tier_names_and_bitrates() {
    let names: Vec<&str> = Tier::all().iter().map(|t| t.name()).collect();
    assert_eq!(names, vec!["ultra", "high", "standard", "medium", "low", "minimal"]);
    for t in Tier::all() {
        // Every tier is picked back from its own bitrate.
        assert_eq!(Tier::for_bitrate(t.bitrate_kbps()), t);
        assert_eq!(t.throughput_bytes(), t.throughput_bps() / 8);
    }
}

#[test]
fn tier_configs_match_throughput() {
    for t in Tier::all() {
        let p = t.pilot_config();
        assert_eq!(p.config.opus_bitrate, t.bitrate_kbps());
        if !t.is_experimental() {
            assert_eq!(p.throughput_bps(), t.throughput_bps());
        }
    }
    let p = Tier::Standard.pilot_config();
    assert_eq!((p.config.n_bins, p.pilot_spacing, p.amp_levels, p.phase_levels), (70, 10, 4, 2));
}

#[test]
fn tier_codecs() {
    let d = Tier::Ultra.diff_config();
    assert_eq!(d.recal_interval, 0);
    assert_eq!(d.diff_mode, DiffMode::Both);
    assert_eq!(Tier::High.diff_config().diff_mode, DiffMode::AmpOnly);
    assert!(matches!(Tier::Ultra.codec(), TierCodec::Diff(_)));
    assert!(matches!(Tier::Standard.codec(), TierCodec::Pilot(_)));
    assert!(matches!(Tier::Minimal.codec(), TierCodec::Pilot(_)));
}
