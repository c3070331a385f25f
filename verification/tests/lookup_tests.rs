use glyphfont::{CharTable, Font, Glyph, GlyphResult, PairEntry};

fn glyph(n: u32) -> Glyph {
    Glyph { pos: (n, n + 1), size: (8, 16), offset: (-1, 2) }
}

fn sparse_font() -> Font {
    // map1 = {'A': G1, 'B': G2}, map2 = {['A','B']: G3}
    Font {
        bitmap: vec![1, 2, 3, 4],
        width: 2,
        map1: CharTable::Sparse(vec![('A', glyph(1)), ('B', glyph(2))]),
        map2: vec![PairEntry { first: 'A', second: 'B', glyph: glyph(3) }],
    }
}

fn dense_font() -> Font {
    // Same mapping as sparse_font, dense storage for the single-char table.
    let mut slots: Vec<Option<Glyph>> = Vec::new();
    for _ in 0..'A' as usize {
        slots.push(None);
    }
    slots.push(Some(glyph(1))); // 'A'
    slots.push(Some(glyph(2))); // 'B'
    Font {
        bitmap: vec![1, 2, 3, 4],
        width: 2,
        map1: CharTable::Dense(slots),
        map2: vec![PairEntry { first: 'A', second: 'B', glyph: glyph(3) }],
    }
}

#[test]
fn single_lookup_present_and_absent() {
    for font in [sparse_font(), dense_font()] {
        assert_eq!(font.lookup_single('A'), Some(glyph(1)));
        assert_eq!(font.lookup_single('B'), Some(glyph(2)));
        assert_eq!(font.lookup_single('C'), None);
        assert_eq!(font.lookup_single('\u{1F600}'), None);
    }
}

#[test]
fn double_lookup_is_order_sensitive() {
    let font = sparse_font();
    assert_eq!(font.lookup_double('A', 'B'), Some(glyph(3)));
    assert_eq!(font.lookup_double('B', 'A'), None);
    assert_eq!(font.lookup_double('A', 'A'), None);
}

#[test]
fn double_lookup_reverse_pair_separately_registered() {
    let mut font = sparse_font();
    font.map2.push(PairEntry { first: 'B', second: 'A', glyph: glyph(4) });
    assert_eq!(font.lookup_double('A', 'B'), Some(glyph(3)));
    assert_eq!(font.lookup_double('B', 'A'), Some(glyph(4)));
}

#[test]
fn lookup_prefers_pair_over_single() {
    for font in [sparse_font(), dense_font()] {
        let s = ['A', 'B'];
        let r = font.lookup(&s, 0).unwrap();
        assert_eq!(r, GlyphResult::Double(glyph(3), ['A', 'B']));
        assert!(r.is_double());
        assert_eq!(r.char_len(), 2);
        assert_eq!(r.first_char(), 'A');
    }
}

#[test]
fn lookup_at_end_yields_no_result() {
    let font = sparse_font();
    let s = ['A', 'B'];
    assert_eq!(font.lookup(&s, 2), None);
    assert_eq!(font.lookup(&s, 3), None);
    let empty: [char; 0] = [];
    assert_eq!(font.lookup(&empty, 0), None);
    // Unknown is a result, distinct from "no result" at the end.
    assert_eq!(font.lookup(&['C'], 0), Some(GlyphResult::Unknown('C')));
}

#[test]
fn lookup_unknown_consumes_one() {
    let font = sparse_font();
    let r = font.lookup(&['C', 'B'], 0).unwrap();
    assert_eq!(r, GlyphResult::Unknown('C'));
    assert!(r.is_unknown());
    assert_eq!(r.char_len(), 1);
    assert_eq!(r.first_char(), 'C');
}

#[test]
fn slice_scenario_ab_ba_ac() {
    for font in [sparse_font(), dense_font()] {
        let ab = ['A', 'B'];
        let mut it = font.lookup_slice(&ab);
        assert_eq!(it.next(), Some(GlyphResult::Double(glyph(3), ['A', 'B'])));
        assert_eq!(it.next(), None);

        let ba = ['B', 'A'];
        let mut it = font.lookup_slice(&ba);
        assert_eq!(it.next(), Some(GlyphResult::Single(glyph(2), 'B')));
        assert_eq!(it.next(), Some(GlyphResult::Single(glyph(1), 'A')));
        assert_eq!(it.next(), None);

        let ac = ['A', 'C'];
        let mut it = font.lookup_slice(&ac);
        assert_eq!(it.next(), Some(GlyphResult::Single(glyph(1), 'A')));
        assert_eq!(it.next(), Some(GlyphResult::Unknown('C')));
        assert_eq!(it.next(), None);
    }
}

#[test]
fn slice_pass_consumes_whole_input() {
    let font = sparse_font();
    let s = ['A', 'B', 'C', 'B', 'A', 'A', 'B'];
    let mut it = font.lookup_slice(&s);
    let mut consumed = 0;
    let mut outcomes = 0;
    while let Some(r) = it.next() {
        consumed += r.char_len();
        outcomes += 1;
    }
    assert_eq!(consumed, s.len());
    assert_eq!(outcomes, 5);
}

#[test]
fn slice_pass_survives_unknown_runs() {
    let font = sparse_font();
    let s = ['X', 'Y', 'A', 'Z', 'B'];
    let mut it = font.lookup_slice(&s);
    let mut results = Vec::new();
    while let Some(r) = it.next() {
        results.push(r);
    }
    assert_eq!(
        results,
        vec![
            GlyphResult::Unknown('X'),
            GlyphResult::Unknown('Y'),
            GlyphResult::Single(glyph(1), 'A'),
            GlyphResult::Unknown('Z'),
            GlyphResult::Single(glyph(2), 'B'),
        ]
    );
}

#[test]
fn streamed_scenario_ab_ba_ac() {
    let font = sparse_font();
    let mut it = font.lookup_string("AB");
    assert_eq!(it.next(), Some(GlyphResult::Double(glyph(3), ['A', 'B'])));

    let mut it = font.lookup_string("BA");
    assert_eq!(it.next(), Some(GlyphResult::Single(glyph(2), 'B')));
    assert_eq!(it.next(), Some(GlyphResult::Single(glyph(1), 'A')));
    assert_eq!(it.next(), None);

    let mut it = font.lookup_string("AC");
    assert_eq!(it.next(), Some(GlyphResult::Single(glyph(1), 'A')));
    assert_eq!(it.next(), Some(GlyphResult::Unknown('C')));
    assert_eq!(it.next(), None);
}

#[test]
fn streamed_consumes_one_token_per_outcome() {
    // The pair match consumes only the current token; the peeked one is
    // re-examined next step, so "AB" yields the Double and then the 'B'.
    let font = sparse_font();
    let mut it = font.lookup_string("AB");
    assert_eq!(it.next(), Some(GlyphResult::Double(glyph(3), ['A', 'B'])));
    assert_eq!(it.next(), Some(GlyphResult::Single(glyph(2), 'B')));
    assert_eq!(it.next(), None);
}

#[test]
fn streamed_second_element_can_start_new_pair() {
    // 'B' is consumed as the second element of the (A,B) pair's test only by
    // peeking; it can itself start the (B,A) pair one step later.
    let mut font = sparse_font();
    font.map2.push(PairEntry { first: 'B', second: 'A', glyph: glyph(4) });
    let mut it = font.lookup_string("ABA");
    assert_eq!(it.next(), Some(GlyphResult::Double(glyph(3), ['A', 'B'])));
    assert_eq!(it.next(), Some(GlyphResult::Double(glyph(4), ['B', 'A'])));
    assert_eq!(it.next(), Some(GlyphResult::Single(glyph(1), 'A')));
    assert_eq!(it.next(), None);
}

#[test]
fn streamed_does_not_stop_on_unknown() {
    let font = sparse_font();
    let mut it = font.lookup_string("XAYB");
    let mut results = Vec::new();
    while let Some(r) = it.next() {
        results.push(r);
    }
    assert_eq!(
        results,
        vec![
            GlyphResult::Unknown('X'),
            GlyphResult::Single(glyph(1), 'A'),
            GlyphResult::Unknown('Y'),
            GlyphResult::Single(glyph(2), 'B'),
        ]
    );
}

#[test]
fn streamed_over_arbitrary_iterator() {
    let font = sparse_font();
    let chars = vec!['B', 'A', 'B'];
    let mut it = font.lookup_peekable(chars.into_iter());
    assert_eq!(it.next(), Some(GlyphResult::Single(glyph(2), 'B')));
    assert_eq!(it.next(), Some(GlyphResult::Double(glyph(3), ['A', 'B'])));
    assert_eq!(it.next(), Some(GlyphResult::Single(glyph(2), 'B')));
    assert_eq!(it.next(), None);
}

#[test]
fn dense_out_of_range_is_absent() {
    let font = dense_font();
    // Far beyond the dense table's length.
    assert_eq!(font.lookup_single('\u{FFFD}'), None);
    assert_eq!(font.lookup(&['\u{FFFD}'], 0), Some(GlyphResult::Unknown('\u{FFFD}')));
}

#[test]
fn result_accessors() {
    let u = GlyphResult::Unknown('q');
    let s = GlyphResult::Single(glyph(7), 'r');
    let d = GlyphResult::Double(glyph(8), ['s', 't']);
    assert!(u.is_unknown() && !u.is_single() && !u.is_double());
    assert!(!s.is_unknown() && s.is_single() && !s.is_double());
    assert!(!d.is_unknown() && !d.is_single() && d.is_double());
    assert_eq!((u.first_char(), s.first_char(), d.first_char()), ('q', 'r', 's'));
    assert_eq!((u.char_len(), s.char_len(), d.char_len()), (1, 1, 2));
}
