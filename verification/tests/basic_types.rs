use gridsolver::basic_types::Cell;
use gridsolver::basic_types::Entry;
use gridsolver::basic_types::EntryDir;
use gridsolver::basic_types::EntryIndex;
use gridsolver::basic_types::GridCoord;
use gridsolver::basic_types::Letter;
use gridsolver::basic_types::Pattern;
use gridsolver::basic_types::Word;

#[test]
fn letter_accepts_alphabetic_bytes_only() {
    assert_eq!(Letter::from_byte(b'A').unwrap().to_byte(), b'A');
    assert_eq!(Letter::from_byte(b'z').unwrap().to_byte(), b'Z');
    assert_eq!(Letter::from_byte(b'a').unwrap(), Letter::from_byte(b'A').unwrap());
    assert!(Letter::from_byte(b'3').is_none());
    assert!(Letter::from_byte(b'.').is_none());
    assert!(Letter::from_byte(200).is_none());
    assert_eq!(Letter::from_byte(b'q').unwrap().to_char(), 'Q');
}

#[test]
fn word_from_text_keeps_letters_only() {
    let w = Word::from_text("?;ab.C'D");
    assert_eq!(w.size(), 4);
    assert_eq!(w.to_text(), "ABCD");
}

#[test]
fn word_from_text_transliterates_accents() {
    // A non-ASCII letter must come out as its plain ASCII equivalent, so
    // the text really went through transliteration.
    let w = Word::from_text("caf\u{e9}");
    assert_eq!(w.size(), 4);
    assert_eq!(w.to_text(), "CAFE");
}

#[test]
fn word_equality_is_by_content() {
    let a = Word::from_text("cat");
    let b = Word::from_text("CAT");
    let c = Word::from_text("car");
    assert_eq!(a, b);
    assert_ne!(a, c);
    assert_eq!(a.clone(), b);
}

#[test]
fn pattern_size_mismatch_never_matches() {
    let p = Pattern::from_text("..A.");
    assert_eq!(p.size(), 4);
    assert!(!p.matches(&Word::from_text("CAT")));
    assert!(!p.matches(&Word::from_text("STAIN")));
}

#[test]
fn pattern_matches_when_constrained_positions_agree() {
    let p = Pattern::from_text("..A.");
    assert!(p.matches(&Word::from_text("STAN")));
    assert!(!p.matches(&Word::from_text("STUN")));
    let all_wild = Pattern::from_text("....");
    assert!(all_wild.matches(&Word::from_text("STUN")));
    let exact = Pattern::from_text("STUN");
    assert!(exact.matches(&Word::from_text("STUN")));
    assert!(!exact.matches(&Word::from_text("STUB")));
}

#[test]
fn pattern_from_text_drops_other_bytes() {
    let p = Pattern::from_text("?.A.'");
    assert_eq!(p.size(), 3);
    assert!(p.matches(&Word::from_text("CAT")));
    assert!(!p.matches(&Word::from_text("CUT")));
}

#[test]
fn pattern_new_copies_masks() {
    let a = Letter::from_byte(b'A').unwrap();
    let p = Pattern::new(&[None, Some(a), None]);
    assert_eq!(p.size(), 3);
    assert!(p.matches(&Word::from_text("CAT")));
    assert!(!p.matches(&Word::from_text("CET")));
}

#[test]
fn grid_coord_offset_checks_bounds() {
    let c = GridCoord::new(2, 3);
    assert_eq!(c.offset(1, -1), Some(GridCoord::new(3, 2)));
    assert_eq!(c.offset(-2, 0), Some(GridCoord::new(0, 3)));
    assert_eq!(c.offset(-3, 0), None);
    assert_eq!(c.offset(0, -4), None);
}

#[test]
fn grid_coord_neighbors_probe_order() {
    let c = GridCoord::new(1, 1);
    let n = c.neighbors();
    assert_eq!(
        n,
        vec![
            GridCoord::new(1, 0),
            GridCoord::new(2, 1),
            GridCoord::new(1, 0),
            GridCoord::new(0, 1),
        ]
    );
    let origin = GridCoord::new(0, 0);
    assert_eq!(origin.neighbors(), vec![GridCoord::new(1, 0)]);
}

#[test]
fn entry_index_rejects_zero() {
    assert!(EntryIndex::new(0, EntryDir::Across).is_none());
    let e = EntryIndex::new(4, EntryDir::Down).unwrap();
    assert_eq!(e.num, 4);
    assert_eq!(e.dir, EntryDir::Down);
    let d = EntryIndex::default();
    assert_eq!(d.num, 1);
    assert_eq!(d.dir, EntryDir::Across);
}

#[test]
fn cell_flags() {
    let a = Letter::from_byte(b'A').unwrap();
    assert!(Cell::Black.is_black());
    assert!(!Cell::Black.is_white());
    assert!(!Cell::Black.is_filled());
    assert!(Cell::White(None).is_white());
    assert!(!Cell::White(None).is_filled());
    assert!(Cell::White(Some(a)).is_white());
    assert!(Cell::White(Some(a)).is_filled());
}

#[test]
fn entry_holds_given_letters() {
    let a = Letter::from_byte(b'A').unwrap();
    let e = Entry::new(vec![Some(a), None]);
    assert_eq!(e.letters.len(), 2);
    assert_eq!(e.letters[0], Some(a));
    assert_eq!(e.letters[1], None);
    let f = Entry::new(vec![Some(a), None]);
    assert_eq!(e, f);
}
