use image_to_ascii::glyph::{bucket_index, Symbols};

#[test]
fn buckets_cover_range_without_gaps() {
    for n in [7usize, 8] {
        assert_eq!(bucket_index(0, n, false), 0);
        assert_eq!(bucket_index(255, n, false), n - 1);
        let mut seen = vec![false; n];
        for v in 0..=255u8 {
            let b = bucket_index(v, n, false);
            assert!(b < n);
            seen[b] = true;
            if v < 255 {
                let next = bucket_index(v + 1, n, false);
                assert!(next == b || next == b + 1);
            }
        }
        assert!(seen.iter().all(|s| *s));
    }
}

#[test]
fn inversion_mirrors_buckets() {
    for n in [7usize, 8] {
        for v in 0..=255u8 {
            assert_eq!(bucket_index(v, n, true), (n - 1) - bucket_index(v, n, false));
        }
    }
}

#[test]
fn bucket_boundaries() {
    assert_eq!(bucket_index(31, 8, false), 0);
    assert_eq!(bucket_index(32, 8, false), 1);
    assert_eq!(bucket_index(224, 8, false), 7);
    assert_eq!(bucket_index(35, 7, false), 0);
    assert_eq!(bucket_index(36, 7, false), 1);
    assert_eq!(bucket_index(251, 7, false), 6);
    assert_eq!(bucket_index(252, 7, false), 6);
    assert_eq!(bucket_index(0, 8, true), 7);
    assert_eq!(bucket_index(255, 7, true), 0);
}

#[test]
fn palette_glyphs() {
    let symbols = Symbols::new();
    assert_eq!(symbols.get_ascii_value(0, false), ' ');
    assert_eq!(symbols.get_ascii_value(255, false), '\u{25A0}');
    assert_eq!(symbols.get_ascii_value(0, true), '\u{25A0}');
    assert_eq!(symbols.get_ascii_value(128, false), '\u{25A9}');
    assert_eq!(symbols.get_intensity(100, false), 3);
    assert_eq!(symbols.get_intensity(100, true), 4);
}
