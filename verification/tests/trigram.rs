use csearch::bitmap::Bitmap;
use csearch::trigram::{
    analyze, analyze_with, pack, pack_trigrams, pack_trigrams_scalar, to_string, Skip, MAX_LINE_LEN,
    MAX_TEXT_TRIGRAMS,
};
use std::collections::BTreeSet;

#[test]
fn pack_matches_scalar() {
    let mut data = Vec::new();
    for i in 0..1000u32 {
        data.push((i.wrapping_mul(2654435761) >> 13) as u8);
    }
    for len in [3usize, 4, 9, 10, 11, 17, 64, 65, 999, 1000] {
        let d = &data[..len];
        let mut a = vec![0u32; len - 2];
        let mut b = vec![0u32; len - 2];
        pack_trigrams(d, &mut a);
        pack_trigrams_scalar(d, &mut b);
        assert_eq!(a, b, "len {len}");
    }
}

#[test]
fn analyze_basic() {
    let t = analyze(b"hello").unwrap();
    let s: Vec<String> = t.iter().map(|&x| to_string(x)).collect();
    assert_eq!(s, vec!["ell", "hel", "llo"]);
    assert_eq!(analyze(b"hi").unwrap(), Vec::<u32>::new());
    assert_eq!(analyze(b"a\0b"), Err(Skip::Binary));
    assert_eq!(analyze(&[0xff, 0xfe, 0x41]), Err(Skip::InvalidUtf8));
    let long = vec![b'x'; MAX_LINE_LEN + 1];
    assert_eq!(analyze(&long), Err(Skip::LongLine));
}

#[test]
fn analyze_matches_naive_set() {
    let mut x = 12345u64;
    let mut data = Vec::new();
    while data.len() < 300_000 {
        x ^= x << 13;
        x ^= x >> 7;
        x ^= x << 17;
        // ASCII letters plus newlines: many repeats, some distinct.
        let b = b"abcdefghij\n"[(x % 11) as usize];
        data.push(b);
    }
    let naive: Vec<u32> = data
        .windows(3)
        .map(pack)
        .collect::<BTreeSet<u32>>()
        .into_iter()
        .collect();
    assert_eq!(analyze(&data).unwrap(), naive);
    // Bitmap must be fully cleared between calls.
    assert_eq!(analyze(b"xyz").unwrap(), vec![pack(b"xyz")]);
    // Overflow path also clears the bitmap.
    let mut wide = Vec::new();
    for a in 0u8..26 {
        for b in 0u8..26 {
            for c in 0u8..40 {
                wide.extend_from_slice(&[b'A' + a, b'a' + b, b'0' + c, b'\n']);
            }
        }
    }
    // ensure > 20000 distinct trigrams
    let distinct = wide.windows(3).map(pack).collect::<BTreeSet<u32>>().len();
    assert!(distinct > MAX_TEXT_TRIGRAMS, "{distinct}");
    assert_eq!(analyze(&wide), Err(Skip::TooManyTrigrams));
    assert_eq!(analyze(b"xyz").unwrap(), vec![pack(b"xyz")]);
}

#[test]
fn bitmap_is_clear_between_files() {
    let mut seen = Bitmap::new();
    assert_eq!(analyze_with(&mut seen, b"abcd").unwrap(), vec![pack(b"abc"), pack(b"bcd")]);
    assert_eq!(analyze_with(&mut seen, b"abc").unwrap(), vec![pack(b"abc")]);
    assert!(analyze_with(&mut seen, b"a\0").is_err());
    assert!(seen.insert(5));
    assert!(!seen.insert(5));
    seen.remove(5);
    assert!(seen.insert(5));
}

#[test]
fn line_length_limit_is_exact() {
    let mut ok = vec![b'x'; MAX_LINE_LEN];
    ok.push(b'\n');
    ok.extend(vec![b'y'; MAX_LINE_LEN]);
    assert!(analyze(&ok).is_ok());
    ok.push(b'y');
    assert_eq!(analyze(&ok), Err(Skip::LongLine));
    let mut early = vec![b'x'; MAX_LINE_LEN + 1];
    early.push(b'\n');
    assert_eq!(analyze(&early), Err(Skip::LongLine));
}

#[test]
fn first_reason_wins() {
    assert_eq!(analyze(&[0, 0xff]), Err(Skip::Binary));
    let mut long = vec![b'x'; MAX_LINE_LEN + 1];
    long.push(0xff);
    assert_eq!(analyze(&long), Err(Skip::InvalidUtf8));
}

#[test]
fn reasons_in_words() {
    assert_eq!(Skip::Binary.message(), "binary file (NUL byte)");
    assert_eq!(Skip::InvalidUtf8.message(), "invalid UTF-8");
    assert_eq!(Skip::LongLine.message(), "very long lines");
    assert_eq!(Skip::TooManyTrigrams.message(), "too many trigrams");
}

#[test]
fn trigrams_are_packed_high_byte_first() {
    assert_eq!(pack(b"abc"), 0x0061_6263);
    assert_eq!(to_string(0x0061_6263), "abc");
    assert_eq!(to_string(0x00ff_4142), "\u{fffd}AB");
}
