use cologna_karaoke::progress::{download_percent_text, separation_message, separation_percent, whole_percent_value};

#[test]
fn separation_progress_from_demucs_lines() {
    assert_eq!(separation_percent(" 45%|████▌     | 12/27 [00:03<00:04]"), Some(45));
    // The last percentage of the line counts.
    assert_eq!(separation_percent("10% done, now 80%"), Some(80));
    // At most three digits before the sign.
    assert_eq!(separation_percent("progress 1234%"), Some(234));
    assert_eq!(separation_percent("loading model"), None);
}

#[test]
fn separation_message_shows_whole_percent() {
    assert_eq!(separation_message(7), "Separating... 7%");
    assert_eq!(separation_message(100), "Separating... 100%");
    assert_eq!(separation_message(0), "Separating... 0%");
}

#[test]
fn whole_percent_reads_one_to_three_digits() {
    assert_eq!(whole_percent_value("007"), Some(7));
    assert_eq!(whole_percent_value("999"), Some(999));
    assert_eq!(whole_percent_value(""), None);
    assert_eq!(whole_percent_value("1000"), None);
    assert_eq!(whole_percent_value("4a"), None);
}

#[test]
fn download_progress_text_from_ytdlp_lines() {
    assert_eq!(
        download_percent_text("[download]  42.7% of 3.21MiB at 1.02MiB/s ETA 00:02"),
        Some("42.7".to_string())
    );
    assert_eq!(download_percent_text("[download] 100% of 3.21MiB"), Some("100".to_string()));
    assert_eq!(download_percent_text("[youtube] Extracting URL"), None);
}
