use glyphfont::{CharTable, Font, Glyph, PairEntry};

fn glyph(n: u32) -> Glyph {
    Glyph { pos: (n, 3 * n), size: (n as u8, 255), offset: (-128, 127) }
}

fn sparse_font() -> Font {
    Font {
        bitmap: vec![0xde, 0xad, 0xbe, 0xef, 0x00],
        width: 40,
        map1: CharTable::Sparse(vec![('A', glyph(1)), ('B', glyph(2)), ('\u{10FFFF}', glyph(5))]),
        map2: vec![
            PairEntry { first: 'A', second: 'B', glyph: glyph(3) },
            PairEntry { first: 'B', second: 'A', glyph: glyph(4) },
        ],
    }
}

fn dense_font() -> Font {
    Font {
        bitmap: vec![7; 32],
        width: 8,
        map1: CharTable::Dense(vec![None, Some(glyph(1)), None, Some(glyph(2))]),
        map2: vec![PairEntry { first: '\u{1}', second: '\u{3}', glyph: glyph(9) }],
    }
}

#[test]
fn round_trip_sparse_font() {
    let font = sparse_font();
    let bytes = font.encode();
    let back = Font::decode(&bytes).expect("canonical encoding must decode");
    assert_eq!(back, font);
}

#[test]
fn round_trip_dense_font() {
    let font = dense_font();
    let bytes = font.encode();
    let back = Font::decode(&bytes).expect("canonical encoding must decode");
    assert_eq!(back, font);
}

#[test]
fn round_trip_empty_tables() {
    let font = Font {
        bitmap: Vec::new(),
        width: 0,
        map1: CharTable::Sparse(Vec::new()),
        map2: Vec::new(),
    };
    let bytes = font.encode();
    assert_eq!(Font::decode(&bytes), Some(font));
}

#[test]
fn decoded_bytes_reencode_identically() {
    let bytes = sparse_font().encode();
    let back = Font::decode(&bytes).unwrap();
    assert_eq!(back.encode(), bytes);
}

#[test]
fn decode_rejects_truncated_input() {
    let bytes = sparse_font().encode();
    for cut in [0, 1, 4, 11, bytes.len() - 1] {
        assert_eq!(Font::decode(&bytes[..cut]), None);
    }
}

#[test]
fn decode_rejects_trailing_garbage() {
    let mut bytes = sparse_font().encode();
    bytes.push(0);
    assert_eq!(Font::decode(&bytes), None);
}

#[test]
fn decode_rejects_unsorted_tables() {
    // The same entries out of order are not a canonical encoding.
    let font = Font {
        bitmap: Vec::new(),
        width: 1,
        map1: CharTable::Sparse(vec![('B', glyph(2)), ('A', glyph(1))]),
        map2: Vec::new(),
    };
    assert_eq!(Font::decode(&font.encode()), None);
}

#[test]
fn decode_rejects_surrogate_scalar() {
    let font = Font {
        bitmap: Vec::new(),
        width: 1,
        map1: CharTable::Sparse(vec![('A', glyph(1))]),
        map2: Vec::new(),
    };
    let mut bytes = font.encode();
    // Overwrite the entry's scalar value with a surrogate code point.
    let entry_off = 4 + 8 + 1 + 8;
    bytes[entry_off..entry_off + 4].copy_from_slice(&0xD800u32.to_le_bytes());
    assert_eq!(Font::decode(&bytes), None);
}

#[test]
fn decode_rejects_empty_input() {
    assert_eq!(Font::decode(&[]), None);
}

#[test]
fn decode_rejects_noncanonical_empty_slot() {
    let font = Font {
        bitmap: Vec::new(),
        width: 1,
        map1: CharTable::Dense(vec![None]),
        map2: Vec::new(),
    };
    let mut bytes = font.encode();
    // An empty dense slot must be padded with zero bytes; anything else is
    // not the canonical encoding.
    let slot_off = 4 + 8 + 1 + 8;
    assert_eq!(bytes[slot_off], 0);
    bytes[slot_off + 1] = 0xFF;
    assert_eq!(Font::decode(&bytes), None);
}

#[test]
fn encoding_starts_with_stride_and_atlas() {
    let font = sparse_font();
    let bytes = font.encode();
    assert_eq!(&bytes[0..4], &[40, 0, 0, 0]);
    assert_eq!(&bytes[4..12], &[5, 0, 0, 0, 0, 0, 0, 0]);
    assert_eq!(&bytes[12..17], &[0xde, 0xad, 0xbe, 0xef, 0x00]);
    // Sparse tag, then the entry count.
    assert_eq!(bytes[17], 0);
    assert_eq!(&bytes[18..26], &[3, 0, 0, 0, 0, 0, 0, 0]);
}

#[test]
fn fonts_compare_structurally() {
    assert_eq!(sparse_font(), sparse_font());
    assert_ne!(sparse_font(), dense_font());
    let mut other = sparse_font();
    other.width += 1;
    assert_ne!(sparse_font(), other);
}
