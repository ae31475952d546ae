use spectro_tiles::colormap::{Colormap2D, COLORMAP_2D_LEN};
use spectro_tiles::guano::{
    append_guano_chunk, build_guano_text, is_white_space, parse_guano, parse_guano_text,
    GuanoMetadata,
};

fn wav_header() -> Vec<u8> {
    let mut w = Vec::new();
    w.extend_from_slice(b"RIFF");
    w.extend_from_slice(&4u32.to_le_bytes());
    w.extend_from_slice(b"WAVE");
    w
}

fn pairs(m: &GuanoMetadata) -> Vec<(&str, &str)> {
    m.fields.iter().map(|(k, v)| (k.as_str(), v.as_str())).collect()
}

#[test]
fn build_text_one_line_per_field() {
    let fields = vec![
        ("GUANO|Version".to_string(), "1.0".to_string()),
        ("Make".to_string(), "Acme".to_string()),
    ];
    assert_eq!(build_guano_text(&fields), "GUANO|Version: 1.0\nMake: Acme\n");
    assert_eq!(build_guano_text(&[]), "");
}

#[test]
fn metadata_add_chains_and_to_text() {
    let mut m = GuanoMetadata::new();
    m.add("GUANO|Version", "1.0").add("Samplerate", "384000");
    assert_eq!(m.fields.len(), 2);
    assert_eq!(m.to_text(), "GUANO|Version: 1.0\nSamplerate: 384000\n");
}

#[test]
fn parse_text_trims_and_splits_at_first_colon() {
    let m = parse_guano_text("  Key One :  value: with colon \r\n\nno colon here\n:empty key\nTail:x");
    assert_eq!(
        pairs(&m),
        vec![("Key One", "value: with colon"), ("", "empty key"), ("Tail", "x")]
    );
}

#[test]
fn parse_text_empty_and_blank() {
    assert!(parse_guano_text("").fields.is_empty());
    assert!(parse_guano_text("\n \n\t\n").fields.is_empty());
}

#[test]
fn whitespace_matches_std() {
    for c in ['\t', '\n', '\u{b}', '\u{c}', '\r', ' ', '\u{85}', '\u{a0}', '\u{1680}', '\u{2000}',
        '\u{200a}', '\u{2028}', '\u{2029}', '\u{202f}', '\u{205f}', '\u{3000}', 'a', ':', '\u{200b}',
        '\u{180e}', '\u{feff}', '\0']
    {
        assert_eq!(is_white_space(c), c.is_whitespace(), "{:?}", c);
    }
}

#[test]
fn append_chunk_pads_odd_text_and_updates_riff_size() {
    let mut w = wav_header();
    append_guano_chunk(&mut w, "A: b\n");
    let mut expect = Vec::new();
    expect.extend_from_slice(b"RIFF");
    expect.extend_from_slice(&18u32.to_le_bytes());
    expect.extend_from_slice(b"WAVE");
    expect.extend_from_slice(b"guan");
    expect.extend_from_slice(&5u32.to_le_bytes());
    expect.extend_from_slice(b"A: b\n");
    expect.push(0);
    assert_eq!(w, expect);
}

#[test]
fn append_chunk_even_text_has_no_pad() {
    let mut w = wav_header();
    append_guano_chunk(&mut w, "AB: c\n");
    assert_eq!(w.len(), 12 + 8 + 6);
    assert_eq!(&w[4..8], &(26u32 - 8).to_le_bytes());
}

#[test]
fn append_then_parse_round_trip() {
    let mut m = GuanoMetadata::new();
    m.add("GUANO|Version", "1.0").add("Loc Position", "51.5 -0.12").add("Note", "odd");
    let mut w = wav_header();
    // an unrelated odd-sized chunk before the metadata
    w.extend_from_slice(b"fmt ");
    w.extend_from_slice(&3u32.to_le_bytes());
    w.extend_from_slice(&[1, 2, 3, 0]);
    append_guano_chunk(&mut w, &m.to_text());
    let parsed = parse_guano(&w).expect("guano chunk");
    assert_eq!(parsed.fields, m.fields);
}

#[test]
fn parse_rejects_non_wave_and_missing_chunk() {
    assert!(parse_guano(b"RIFF").is_none());
    assert!(parse_guano(b"RIFX\x04\0\0\0WAVEguan\x01\0\0\0a\0").is_none());
    let w = wav_header();
    assert!(parse_guano(&w).is_none());
    let mut truncated = wav_header();
    truncated.extend_from_slice(b"guan");
    truncated.extend_from_slice(&100u32.to_le_bytes());
    truncated.extend_from_slice(b"K: v\n");
    assert!(parse_guano(&truncated).is_none());
}

#[test]
fn parse_rejects_invalid_utf8() {
    let mut w = wav_header();
    w.extend_from_slice(b"guan");
    w.extend_from_slice(&2u32.to_le_bytes());
    w.extend_from_slice(&[0xff, 0xfe]);
    assert!(parse_guano(&w).is_none());
}

#[test]
fn colormap_lookup_is_row_major_by_secondary() {
    let lut: Vec<[u8; 3]> =
        (0..COLORMAP_2D_LEN).map(|i| [(i % 256) as u8, (i / 256) as u8, 9]).collect();
    let cm = Colormap2D::from_table(lut).expect("full table");
    assert_eq!(cm.apply(3, 200), [3, 200, 9]);
    assert_eq!(cm.apply(255, 0), [255, 0, 9]);
    assert!(Colormap2D::from_table(vec![[0u8; 3]; 10]).is_none());
}

#[test]
fn default_metadata_is_empty() {
    let m = GuanoMetadata::default();
    assert!(m.fields.is_empty());
    assert_eq!(m.to_text(), "");
}
