use base64::Engine;
use cologna_karaoke::recognizer::{band_index, song_info, DecodedSignature, FrequencyPeak};

#[test]
fn recognition_needs_title_and_artist() {
    assert!(song_info(Some("T".into()), Some("A".into())).is_some());
    assert!(song_info(Some("".into()), Some("A".into())).is_none());
    assert!(song_info(None, Some("A".into())).is_none());
}

fn sig() -> DecodedSignature {
    let peak = |pass: u32| FrequencyPeak { fft_pass_number: pass, peak_magnitude: 0x1234, corrected_peak_frequency_bin: 0x0102 };
    DecodedSignature {
        sample_rate_hz: 16000,
        number_samples: 192000,
        band_peaks: vec![vec![peak(3), peak(300)], vec![], vec![], vec![]],
    }
}

#[test]
fn signature_header_and_band_block() {
    let bytes = sig().encode_to_binary(3840);
    // header (56) + band tag and length (8) + peaks (5 + 5 + 5) + padding (1)
    assert_eq!(bytes.len(), 56 + 8 + 15 + 1);
    assert_eq!(&bytes[0..4], &0xcafe2580u32.to_le_bytes());
    assert_eq!(&bytes[8..12], &((bytes.len() - 48) as u32).to_le_bytes());
    assert_eq!(&bytes[12..16], &0x94119c00u32.to_le_bytes());
    assert_eq!(&bytes[28..32], &(3u32 << 27).to_le_bytes());
    assert_eq!(&bytes[40..44], &(192000u32 + 3840).to_le_bytes());
    assert_eq!(&bytes[52..56], &((bytes.len() - 48) as u32).to_le_bytes());
    assert_eq!(&bytes[56..60], &0x60030040u32.to_le_bytes());
    assert_eq!(&bytes[60..64], &15u32.to_le_bytes());
    // first peak: delta 3, magnitude, bin
    assert_eq!(&bytes[64..69], &[3, 0x34, 0x12, 0x02, 0x01]);
    // second peak: pass jump of 297 → reset marker and full pass number
    assert_eq!(&bytes[69..74], &[0xff, 0x2c, 0x01, 0x00, 0x00]);
    assert_eq!(&bytes[74..79], &[0, 0x34, 0x12, 0x02, 0x01]);
    assert_eq!(bytes[79], 0);
    let crc = crc32fast::hash(&bytes[8..]);
    assert_eq!(&bytes[4..8], &crc.to_le_bytes());
}

#[test]
fn signature_uri_is_base64_of_the_binary() {
    let s = sig();
    let uri = s.encode_to_uri(3840);
    assert!(uri.starts_with("data:audio/vnd.shazam.sig;base64,"));
    let decoded = base64::prelude::BASE64_STANDARD.decode(&uri["data:audio/vnd.shazam.sig;base64,".len()..]).unwrap();
    assert_eq!(decoded, s.encode_to_binary(3840));
}

#[test]
fn peaks_sorted_into_frequency_bands() {
    assert_eq!(band_index(249), None);
    assert_eq!(band_index(250), Some(0));
    assert_eq!(band_index(519), Some(0));
    assert_eq!(band_index(520), Some(1));
    assert_eq!(band_index(1450), Some(2));
    assert_eq!(band_index(3499), Some(2));
    assert_eq!(band_index(5500), Some(3));
    assert_eq!(band_index(5501), None);
}
