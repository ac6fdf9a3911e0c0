use scr33ny::font::first_font;

#[test]
fn first_font_none_when_nothing_parses() {
    let cands: Vec<Option<Vec<u8>>> = vec![None, Some(vec![]), Some(b"not a font".to_vec()), None];
    assert!(first_font(&cands).is_none());
}

#[test]
fn first_font_empty_list() {
    let cands: Vec<Option<Vec<u8>>> = vec![];
    assert!(first_font(&cands).is_none());
}

/// The smallest TrueType file that a parser accepts: `head`, `hhea` and
/// `maxp` tables, one glyph, no outlines.
fn minimal_truetype() -> Vec<u8> {
    let mut f: Vec<u8> = vec![];
    f.extend_from_slice(&0x0001_0000u32.to_be_bytes());
    f.extend_from_slice(&3u16.to_be_bytes());
    f.extend_from_slice(&[0u8; 6]);
    let tables: [(&[u8; 4], u32, u32); 3] = [(b"head", 60, 54), (b"hhea", 114, 36), (b"maxp", 150, 6)];
    for (tag, offset, len) in tables {
        f.extend_from_slice(tag);
        f.extend_from_slice(&0u32.to_be_bytes());
        f.extend_from_slice(&offset.to_be_bytes());
        f.extend_from_slice(&len.to_be_bytes());
    }
    let mut head = [0u8; 54];
    head[0..4].copy_from_slice(&0x0001_0000u32.to_be_bytes());
    head[18..20].copy_from_slice(&1000u16.to_be_bytes());
    f.extend_from_slice(&head);
    f.extend_from_slice(&[0u8; 36]);
    f.extend_from_slice(&0x0000_5000u32.to_be_bytes());
    f.extend_from_slice(&1u16.to_be_bytes());
    f
}

#[test]
fn first_font_skips_unreadable_and_broken_candidates() {
    let font = minimal_truetype();
    let cands: Vec<Option<Vec<u8>>> =
        vec![None, Some(b"garbage".to_vec()), Some(font.clone()), Some(font)];
    let (index, _) = first_font(&cands).expect("a font parses");
    assert_eq!(index, 2);
}

#[test]
fn first_font_takes_the_first_that_parses() {
    let cands: Vec<Option<Vec<u8>>> = vec![Some(minimal_truetype()), None];
    assert_eq!(first_font(&cands).map(|(i, _)| i), Some(0));
}
