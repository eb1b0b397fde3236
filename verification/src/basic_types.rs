//! Value types shared by the dictionary, the grid and the solver: letters,
//! words, patterns, coordinates, entry indices and cells.

use vstd::prelude::*;

verus! {

// ---------------------------------------------------------------------------
// Letter: one normalized uppercase ASCII alphabetic character.
// ---------------------------------------------------------------------------

/// True of the bytes that denote an uppercase ASCII letter.
pub open spec fn is_upper_byte(b: u8) -> bool {
    65 <= b <= 90
}

/// True of the bytes that denote a lowercase ASCII letter.
pub open spec fn is_lower_byte(b: u8) -> bool {
    97 <= b <= 122
}

/// True of the bytes that denote an ASCII letter of either case.
pub open spec fn is_alpha_byte(b: u8) -> bool {
    is_upper_byte(b) || is_lower_byte(b)
}

/// The uppercase form of an ASCII letter byte; other bytes are unchanged.
pub open spec fn upper_byte(b: u8) -> u8 {
    if is_lower_byte(b) {
        (b - 32) as u8
    } else {
        b
    }
}

/// One letter of a word, stored as its uppercase ASCII byte.
#[derive(Clone, Copy, Debug, PartialEq, Eq, Structural, Hash)]
pub struct Letter(pub u8);

impl Letter {
    /// Accepts an ASCII alphabetic byte and normalizes it to uppercase;
    /// rejects every other byte.
    pub fn from_byte(b: u8) -> (r: Option<Letter>)
        ensures
            r is Some <==> is_alpha_byte(b),
            r matches Some(l) ==> l.0 == upper_byte(b),
    {
        if 65 <= b && b <= 90 {
            Some(Letter(b))
        } else if 97 <= b && b <= 122 {
            Some(Letter(b - 32))
        } else {
            None
        }
    }

    /// The stored byte.
    pub fn to_byte(self) -> (r: u8)
        ensures
            r == self.0,
    {
        self.0
    }

    /// The stored byte as a character.
    pub fn to_char(self) -> (r: char)
        ensures
            r == self.0 as char,
    {
        self.0 as char
    }
}

// ---------------------------------------------------------------------------
// Transliteration: the one step of text intake that an outside crate owns.
// ---------------------------------------------------------------------------

/// The ASCII transliteration of a character sequence, as the bytes that
/// `unidecode` produces for it.
pub uninterp spec fn ascii_of(s: Seq<char>) -> Seq<u8>;

/// Relies on unidecode::unidecode: an ASCII transliteration of the input,
/// determined by the input characters alone.
#[verifier::external_body]
fn transliterate(s: &str) -> (r: Vec<u8>)
    ensures
        r@ == ascii_of(s@),
{
    unidecode::unidecode(s).into_bytes()
}

/// Relies on String's FromIterator impl: collecting characters yields the
/// string of exactly those characters in order.
#[verifier::external_body]
pub(crate) fn chars_to_string(cs: Vec<char>) -> (r: String)
    ensures
        r@ == cs@,
{
    cs.into_iter().collect()
}

// ---------------------------------------------------------------------------
// Word: a sequence of letters.
// ---------------------------------------------------------------------------

/// The letter bytes that remain after filtering a byte sequence down to its
/// alphabetic bytes and uppercasing each.
pub open spec fn letter_codes(bytes: Seq<u8>) -> Seq<u8>
    decreases bytes.len(),
{
    if bytes.len() == 0 {
        Seq::empty()
    } else {
        let rest = letter_codes(bytes.drop_last());
        if is_alpha_byte(bytes.last()) {
            rest.push(upper_byte(bytes.last()))
        } else {
            rest
        }
    }
}

/// The byte of each letter in a sequence.
pub open spec fn codes_of(letters: Seq<Letter>) -> Seq<u8> {
    letters.map_values(|l: Letter| l.0)
}

/// A word: an ordered sequence of letters.
#[derive(Debug)]
pub struct Word {
    pub letters: Vec<Letter>,
}

impl View for Word {
    type V = Seq<Letter>;

    open spec fn view(&self) -> Seq<Letter> {
        self.letters@
    }
}

impl Word {
    /// A word holding exactly the given letters.
    pub fn new(letters: &[Letter]) -> (r: Word)
        ensures
            r@ == letters@,
    {
        let mut v: Vec<Letter> = Vec::new();
        let mut i: usize = 0;
        while i < letters.len()
            invariant
                i <= letters@.len(),
                v@ == letters@.take(i as int),
            decreases letters@.len() - i,
        {
            v.push(letters[i]);
            proof {
                assert(v@ =~= letters@.take(i + 1));
            }
            i += 1;
        }
        proof {
            assert(letters@.take(letters@.len() as int) =~= letters@);
        }
        Word { letters: v }
    }

    /// The number of letters.
    pub fn size(&self) -> (r: usize)
        ensures
            r == self@.len(),
    {
        self.letters.len()
    }

    /// Builds a word from text: the text is transliterated to ASCII, every
    /// non-alphabetic byte is dropped, and each letter is uppercased.
    pub fn from_text(s: &str) -> (r: Word)
        ensures
            codes_of(r@) == letter_codes(ascii_of(s@)),
    {
        let bytes = transliterate(s);
        let mut letters: Vec<Letter> = Vec::new();
        let mut i: usize = 0;
        while i < bytes.len()
            invariant
                i <= bytes@.len(),
                codes_of(letters@) == letter_codes(bytes@.take(i as int)),
            decreases bytes@.len() - i,
        {
            proof {
                assert(bytes@.take(i + 1).drop_last() =~= bytes@.take(i as int));
                assert(bytes@.take(i + 1).last() == bytes@[i as int]);
            }
            match Letter::from_byte(bytes[i]) {
                Some(l) => {
                    let ghost prev = letters@;
                    letters.push(l);
                    proof {
                        assert(codes_of(letters@) =~= codes_of(prev).push(l.0));
                    }
                },
                None => {},
            }
            i += 1;
        }
        proof {
            assert(bytes@.take(bytes@.len() as int) =~= bytes@);
        }
        Word { letters }
    }

    /// The word's text: one character per letter.
    pub fn to_text(&self) -> (r: String)
        ensures
            r@ == self@.map_values(|l: Letter| l.0 as char),
    {
        let mut cs: Vec<char> = Vec::new();
        let mut i: usize = 0;
        while i < self.letters.len()
            invariant
                i <= self@.len(),
                cs@ == self@.take(i as int).map_values(|l: Letter| l.0 as char),
            decreases self@.len() - i,
        {
            let ghost prev = cs@;
            cs.push(self.letters[i].to_char());
            proof {
                assert(cs@ =~= self@.take(i + 1).map_values(|l: Letter| l.0 as char));
            }
            i += 1;
        }
        proof {
            assert(self@.take(self@.len() as int) =~= self@);
        }
        chars_to_string(cs)
    }
}

impl PartialEq for Word {
    fn eq(&self, other: &Word) -> (r: bool) {
        if self.letters.len() != other.letters.len() {
            return false;
        }
        let mut i: usize = 0;
        while i < self.letters.len()
            invariant
                i <= self@.len(),
                self@.len() == other@.len(),
                forall|j: int| 0 <= j < i ==> self@[j] == other@[j],
            decreases self@.len() - i,
        {
            if self.letters[i] != other.letters[i] {
                return false;
            }
            i += 1;
        }
        proof {
            assert(self@ =~= other@);
        }
        true
    }
}

impl vstd::std_specs::cmp::PartialEqSpecImpl for Word {
    open spec fn obeys_eq_spec() -> bool {
        true
    }

    open spec fn eq_spec(&self, other: &Word) -> bool {
        self@ == other@
    }
}

impl Clone for Word {
    fn clone(&self) -> (r: Word)
        ensures
            r@ == self@,
    {
        Word::new(self.letters.as_slice())
    }
}

// ---------------------------------------------------------------------------
// Pattern: a sequence of "letter or wildcard" masks.
// ---------------------------------------------------------------------------

/// Whether a word fits a pattern: the lengths agree and every constrained
/// position carries the word's letter there.
pub open spec fn spec_matches(masks: Seq<Option<Letter>>, word: Seq<Letter>) -> bool {
    &&& masks.len() == word.len()
    &&& forall|i: int|
        0 <= i < masks.len() ==> match #[trigger] masks[i] {
            Some(l) => l == word[i],
            None => true,
        }
}

/// The masks that remain after filtering a byte sequence: a period becomes a
/// wildcard, an alphabetic byte becomes its uppercase letter, anything else
/// is dropped.
pub open spec fn mask_codes(bytes: Seq<u8>) -> Seq<Option<u8>>
    decreases bytes.len(),
{
    if bytes.len() == 0 {
        Seq::empty()
    } else {
        let rest = mask_codes(bytes.drop_last());
        let b = bytes.last();
        if b == 46 {
            rest.push(None)
        } else if is_alpha_byte(b) {
            rest.push(Some(upper_byte(b)))
        } else {
            rest
        }
    }
}

/// The byte of each constrained mask in a sequence.
pub open spec fn mask_bytes(masks: Seq<Option<Letter>>) -> Seq<Option<u8>> {
    masks.map_values(
        |m: Option<Letter>|
            match m {
                Some(l) => Some(l.0),
                None => None,
            },
    )
}

/// A pattern: one mask per position, either a fixed letter or a wildcard.
#[derive(Debug)]
pub struct Pattern {
    pub masks: Vec<Option<Letter>>,
}

impl View for Pattern {
    type V = Seq<Option<Letter>>;

    open spec fn view(&self) -> Seq<Option<Letter>> {
        self.masks@
    }
}

impl Pattern {
    /// A pattern holding exactly the given masks.
    pub fn new(masks: &[Option<Letter>]) -> (r: Pattern)
        ensures
            r@ == masks@,
    {
        let mut v: Vec<Option<Letter>> = Vec::new();
        let mut i: usize = 0;
        while i < masks.len()
            invariant
                i <= masks@.len(),
                v@ == masks@.take(i as int),
            decreases masks@.len() - i,
        {
            v.push(masks[i]);
            proof {
                assert(v@ =~= masks@.take(i + 1));
            }
            i += 1;
        }
        proof {
            assert(masks@.take(masks@.len() as int) =~= masks@);
        }
        Pattern { masks: v }
    }

    /// The number of positions.
    pub fn size(&self) -> (r: usize)
        ensures
            r == self@.len(),
    {
        self.masks.len()
    }

    /// Whether the word fits this pattern: false when the lengths differ,
    /// otherwise true exactly when every constrained position agrees.
    pub fn matches(&self, word: &Word) -> (r: bool)
        ensures
            r == spec_matches(self@, word@),
    {
        if word.size() != self.size() {
            return false;
        }
        let mut i: usize = 0;
        while i < self.masks.len()
            invariant
                i <= self@.len(),
                self@.len() == word@.len(),
                forall|j: int|
                    0 <= j < i ==> match #[trigger] self@[j] {
                        Some(l) => l == word@[j],
                        None => true,
                    },
            decreases self@.len() - i,
        {
            match self.masks[i] {
                Some(l) => {
                    if l != word.letters[i] {
                        return false;
                    }
                },
                None => {},
            }
            i += 1;
        }
        true
    }

    /// Builds a pattern from text: the text is transliterated to ASCII, a
    /// period becomes a wildcard, an alphabetic byte its uppercase letter,
    /// and every other byte is dropped.
    pub fn from_text(s: &str) -> (r: Pattern)
        ensures
            mask_bytes(r@) == mask_codes(ascii_of(s@)),
    {
        let bytes = transliterate(s);
        let mut masks: Vec<Option<Letter>> = Vec::new();
        let mut i: usize = 0;
        while i < bytes.len()
            invariant
                i <= bytes@.len(),
                mask_bytes(masks@) == mask_codes(bytes@.take(i as int)),
            decreases bytes@.len() - i,
        {
            proof {
                assert(bytes@.take(i + 1).drop_last() =~= bytes@.take(i as int));
                assert(bytes@.take(i + 1).last() == bytes@[i as int]);
            }
            let b = bytes[i];
            let ghost prev = masks@;
            if b == 46 {
                masks.push(None);
                proof {
                    assert(mask_bytes(masks@) =~= mask_bytes(prev).push(None));
                }
            } else {
                match Letter::from_byte(b) {
                    Some(l) => {
                        masks.push(Some(l));
                        proof {
                            assert(mask_bytes(masks@) =~= mask_bytes(prev).push(Some(l.0)));
                        }
                    },
                    None => {},
                }
            }
            i += 1;
        }
        proof {
            assert(bytes@.take(bytes@.len() as int) =~= bytes@);
        }
        Pattern { masks }
    }
}

impl PartialEq for Pattern {
    fn eq(&self, other: &Pattern) -> (r: bool) {
        if self.masks.len() != other.masks.len() {
            return false;
        }
        let mut i: usize = 0;
        while i < self.masks.len()
            invariant
                i <= self@.len(),
                self@.len() == other@.len(),
                forall|j: int| 0 <= j < i ==> self@[j] == other@[j],
            decreases self@.len() - i,
        {
            let same = match (self.masks[i], other.masks[i]) {
                (None, None) => true,
                (Some(a), Some(b)) => a == b,
                _ => false,
            };
            if !same {
                return false;
            }
            i += 1;
        }
        proof {
            assert(self@ =~= other@);
        }
        true
    }
}

impl vstd::std_specs::cmp::PartialEqSpecImpl for Pattern {
    open spec fn obeys_eq_spec() -> bool {
        true
    }

    open spec fn eq_spec(&self, other: &Pattern) -> bool {
        self@ == other@
    }
}

impl Clone for Pattern {
    fn clone(&self) -> (r: Pattern)
        ensures
            r@ == self@,
    {
        Pattern::new(self.masks.as_slice())
    }
}

// ---------------------------------------------------------------------------
// GridCoord: a zero-based (row, column) position.
// ---------------------------------------------------------------------------

/// A coordinate in a grid.
#[derive(Clone, Copy, Debug, PartialEq, Eq, Structural, Hash)]
pub struct GridCoord {
    pub row: usize,
    pub col: usize,
}

impl GridCoord {
    /// The coordinate (row, col).
    pub fn new(row: usize, col: usize) -> (r: GridCoord)
        ensures
            r.row == row,
            r.col == col,
    {
        GridCoord { row, col }
    }

    /// The coordinate shifted by the given offsets, or none when either
    /// shifted component would leave the range of usize.
    pub fn offset(&self, row_offset: i32, col_offset: i32) -> (r: Option<GridCoord>)
        ensures
            ({
                let nr = self.row + row_offset;
                let nc = self.col + col_offset;
                if 0 <= nr <= usize::MAX && 0 <= nc <= usize::MAX {
                    r matches Some(c) && c.row == nr && c.col == nc
                } else {
                    r is None
                }
            }),
    {
        match (shift(self.row, row_offset), shift(self.col, col_offset)) {
            (Some(nr), Some(nc)) => Some(GridCoord { row: nr, col: nc }),
            _ => None,
        }
    }

    /// The in-range neighbors of this coordinate, in the fixed probe order
    /// left, below, left again, above.
    pub fn neighbors(&self) -> (r: Vec<GridCoord>)
        ensures
            r@ == spec_neighbors(*self),
    {
        let probes = [self.offset(0, -1), self.offset(1, 0), self.offset(0, -1), self.offset(-1, 0)];
        let mut v: Vec<GridCoord> = Vec::new();
        if let Some(c) = probes[0] {
            v.push(c);
        }
        if let Some(c) = probes[1] {
            v.push(c);
        }
        if let Some(c) = probes[2] {
            v.push(c);
        }
        if let Some(c) = probes[3] {
            v.push(c);
        }
        proof {
            assert(v@ =~= spec_neighbors(*self));
        }
        v
    }
}

/// One shifted component of a coordinate offset.
fn shift(base: usize, off: i32) -> (r: Option<usize>)
    ensures
        if 0 <= base + off <= usize::MAX {
            r matches Some(v) && v == base + off
        } else {
            r is None
        },
{
    if off >= 0 {
        base.checked_add(off as usize)
    } else if off == i32::MIN {
        base.checked_sub(2147483648)
    } else {
        base.checked_sub((-off) as usize)
    }
}

/// The neighbor probes of a coordinate that stay in range, in probe order:
/// left, below, left again, above.
pub open spec fn spec_neighbors(c: GridCoord) -> Seq<GridCoord> {
    let left: Seq<GridCoord> = if c.col > 0 {
        seq![GridCoord { row: c.row, col: (c.col - 1) as usize }]
    } else {
        Seq::empty()
    };
    let below: Seq<GridCoord> = if c.row + 1 <= usize::MAX {
        seq![GridCoord { row: (c.row + 1) as usize, col: c.col }]
    } else {
        Seq::empty()
    };
    let above: Seq<GridCoord> = if c.row > 0 {
        seq![GridCoord { row: (c.row - 1) as usize, col: c.col }]
    } else {
        Seq::empty()
    };
    left + below + left + above
}

// ---------------------------------------------------------------------------
// Entry indices: the crossword numbering of a slot.
// ---------------------------------------------------------------------------

/// The direction a slot runs in.
#[derive(Clone, Copy, Debug, PartialEq, Eq, PartialOrd, Ord, Structural, Hash)]
pub enum EntryDir {
    Across,
    Down,
}

/// The address of a slot: a positive crossword number and a direction.
#[derive(Clone, Copy, Debug, PartialEq, Eq, Structural, Hash)]
pub struct EntryIndex {
    pub num: u32,
    pub dir: EntryDir,
}

impl EntryIndex {
    /// An entry index with the given number and direction; numbers start at
    /// one, so zero is rejected.
    pub fn new(num: u32, dir: EntryDir) -> (r: Option<EntryIndex>)
        ensures
            r is Some <==> num > 0,
            r matches Some(e) ==> e.num == num && e.dir == dir,
    {
        if num > 0 {
            Some(EntryIndex { num, dir })
        } else {
            None
        }
    }
}

impl Default for EntryIndex {
    /// The first across entry.
    fn default() -> (r: EntryIndex)
        ensures
            r.num == 1,
            r.dir == EntryDir::Across,
    {
        EntryIndex { num: 1, dir: EntryDir::Across }
    }
}

// ---------------------------------------------------------------------------
// Entry: the current contents of a slot.
// ---------------------------------------------------------------------------

/// A slot's contents: one optional letter per coordinate, in scan order.
#[derive(Debug)]
pub struct Entry {
    pub letters: Vec<Option<Letter>>,
}

impl View for Entry {
    type V = Seq<Option<Letter>>;

    open spec fn view(&self) -> Seq<Option<Letter>> {
        self.letters@
    }
}

impl Entry {
    /// An entry holding exactly the given letters.
    pub fn new(letters: Vec<Option<Letter>>) -> (r: Entry)
        ensures
            r@ == letters@,
    {
        Entry { letters }
    }
}

impl PartialEq for Entry {
    fn eq(&self, other: &Entry) -> (r: bool) {
        if self.letters.len() != other.letters.len() {
            return false;
        }
        let mut i: usize = 0;
        while i < self.letters.len()
            invariant
                i <= self@.len(),
                self@.len() == other@.len(),
                forall|j: int| 0 <= j < i ==> self@[j] == other@[j],
            decreases self@.len() - i,
        {
            let same = match (self.letters[i], other.letters[i]) {
                (None, None) => true,
                (Some(a), Some(b)) => a == b,
                _ => false,
            };
            if !same {
                return false;
            }
            i += 1;
        }
        proof {
            assert(self@ =~= other@);
        }
        true
    }
}

impl vstd::std_specs::cmp::PartialEqSpecImpl for Entry {
    open spec fn obeys_eq_spec() -> bool {
        true
    }

    open spec fn eq_spec(&self, other: &Entry) -> bool {
        self@ == other@
    }
}

// ---------------------------------------------------------------------------
// Cell: one square of the grid.
// ---------------------------------------------------------------------------

/// A grid cell: blocked, or fillable and possibly holding a letter.
#[derive(Clone, Copy, Debug, PartialEq, Eq)]
pub enum Cell {
    Black,
    White(Option<Letter>),
}

/// Whether a cell is fillable.
pub open spec fn cell_white(c: Cell) -> bool {
    c is White
}

/// The letter a cell holds, if any; a blocked cell holds none.
pub open spec fn cell_letter(c: Cell) -> Option<Letter> {
    match c {
        Cell::Black => None,
        Cell::White(l) => l,
    }
}

/// Whether a cell is fillable and holds a letter.
pub open spec fn cell_filled(c: Cell) -> bool {
    cell_white(c) && cell_letter(c) is Some
}

impl Cell {
    /// Whether this cell is fillable.
    pub fn is_white(&self) -> (r: bool)
        ensures
            r == cell_white(*self),
    {
        match *self {
            Cell::White(_) => true,
            _ => false,
        }
    }

    /// Whether this cell is blocked.
    pub fn is_black(&self) -> (r: bool)
        ensures
            r == !cell_white(*self),
    {
        !self.is_white()
    }

    /// Whether this cell is fillable and holds a letter.
    pub fn is_filled(&self) -> (r: bool)
        ensures
            r == cell_filled(*self),
    {
        match *self {
            Cell::White(Some(_)) => true,
            _ => false,
        }
    }
}

} // verus!
