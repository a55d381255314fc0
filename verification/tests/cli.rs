use ani_dl::cli::{
    episode_index, episode_labels, episode_output_template, extract_percent_text, extract_speed,
    season_dir_name, to_title_case,
};
use ani_dl::data::{is_newer_version, keep_existing_data, parse_version, should_download, version_text};

#[test]
fn title_case_capitalizes_words() {
    assert_eq!(to_title_case("one piece"), "One Piece");
    assert_eq!(to_title_case("  shingeki   no kyojin "), "Shingeki No Kyojin");
    assert_eq!(to_title_case("élève straße ǆ"), "Élève Straße Ǆ");
    assert_eq!(to_title_case("ßa"), "SSa");
    assert_eq!(to_title_case(""), "");
    assert_eq!(to_title_case("ALREADY Up"), "ALREADY Up");
}

#[test]
fn percent_text_of_progress_lines() {
    let line = "[download]  45.2% of 10.00MiB at  1.23MiB/s ETA 00:05";
    assert_eq!(extract_percent_text(line), Some("45.2".to_string()));
    assert_eq!(extract_percent_text("[download] 100% of 5MiB"), Some("100".to_string()));
    assert_eq!(extract_percent_text("no percent here"), None);
    assert_eq!(extract_percent_text("50%"), None);
}

#[test]
fn speed_text_of_progress_lines() {
    let line = "[download]  45.2% of 10.00MiB at  1.23MiB/s ETA 00:05";
    assert_eq!(extract_speed(line), Some("1.23MiB/s".to_string()));
    assert_eq!(extract_speed("[download] 45% of 10MiB"), None);
    assert_eq!(extract_speed("x at y"), None);
    assert_eq!(extract_speed(" at  ETA "), Some("".to_string()));
}

#[test]
fn file_names() {
    assert_eq!(season_dir_name(1), "S1");
    assert_eq!(season_dir_name(-128), "S-128");
    assert_eq!(episode_output_template("One Piece/S1", "One Piece", 1, 7), "One Piece/S1/One Piece S1E07.%(ext)s");
    assert_eq!(episode_output_template("d", "n", 12, 123), "d/n S12E123.%(ext)s");
    assert_eq!(episode_output_template("d", "n", 2, 0), "d/n S2E00.%(ext)s");
}

#[test]
fn episode_labels_read_back() {
    let labels = episode_labels(12);
    assert_eq!(labels[0], "Épisode 1");
    assert_eq!(labels[11], "Épisode 12");
    for (i, l) in labels.iter().enumerate() {
        assert_eq!(episode_index(l), Some(i));
    }
    assert!(episode_labels(0).is_empty());
    assert_eq!(episode_index("Épisode 0"), None);
    assert_eq!(episode_index("Épisode x"), None);
    assert_eq!(episode_index("3"), Some(2));
    assert_eq!(episode_index("Épisode Épisode 4"), Some(3));
    assert_eq!(episode_index("Épisode +5"), Some(4));
}

#[test]
fn versions() {
    assert_eq!(parse_version("42\n"), Some(42));
    assert_eq!(parse_version("  +7 "), Some(7));
    assert_eq!(parse_version("4294967295"), Some(u32::MAX));
    assert_eq!(parse_version("4294967296"), None);
    assert_eq!(parse_version("-1"), None);
    assert_eq!(parse_version(""), None);
    assert_eq!(parse_version("+"), None);
    assert_eq!(parse_version("1 2"), None);
    assert!(is_newer_version(3, 2));
    assert!(!is_newer_version(2, 2));
}

#[test]
fn download_decisions() {
    assert!(should_download(true, true));
    assert!(should_download(false, false));
    assert!(!should_download(false, true));
    assert!(keep_existing_data(499_999, true));
    assert!(!keep_existing_data(500_000, true));
    assert!(!keep_existing_data(10, false));
}

#[test]
fn version_text_reads_back() {
    assert_eq!(version_text(0), "0");
    assert_eq!(version_text(1), "1");
    assert_eq!(version_text(4_294_967_295), "4294967295");
    for v in [0u32, 7, 10, 99, 100, 123_456, u32::MAX] {
        assert_eq!(version_text(v), v.to_string());
        assert_eq!(parse_version(&version_text(v)), Some(v));
    }
}
