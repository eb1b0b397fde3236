//! The grid: a rectangle of blocked and fillable cells, the entries (maximal
//! runs of at least three fillable cells) derived from the layout, their
//! crossword numbering and crossings, and the backtracking solver that fills
//! them from a dictionary.

use vstd::prelude::*;

use crate::basic_types::Cell;
use crate::basic_types::Entry;
use crate::basic_types::EntryDir;
use crate::basic_types::EntryIndex;
use crate::basic_types::GridCoord;
use crate::basic_types::Letter;
use crate::basic_types::Pattern;
use crate::basic_types::Word;
use crate::basic_types::cell_letter;
use crate::basic_types::chars_to_string;
use crate::basic_types::cell_white;
use crate::basic_types::spec_matches;
use crate::dict::RankedDict;
use crate::dict::UnrankedDict;
use crate::dict::views_of;
use crate::rng::Shuffler;

verus! {

/// A grid of cells together with its entry topology: the coordinates of
/// every slot, and which slots cross which.  The topology is computed from
/// the blocked/fillable layout alone and is kept in step with it; writing
/// letters never changes it.
#[derive(Clone, Debug)]
pub struct Grid {
    cells: Vec<Cell>,
    entries: Vec<(EntryIndex, Vec<GridCoord>)>,
    perpendicular_entries: Vec<(EntryIndex, Vec<EntryIndex>)>,
    width: usize,
    height: usize,
}

impl Grid {
    // -- the layout, seen from specifications --------------------------------

    /// The grid width.
    pub closed spec fn spec_width(&self) -> int {
        self.width as int
    }

    /// The grid height.
    pub closed spec fn spec_height(&self) -> int {
        self.height as int
    }

    /// The cell stored at (r, c), which must be in range.
    pub closed spec fn spec_cell(&self, r: int, c: int) -> Cell {
        self.cells@[r * self.width + c]
    }

    /// Whether (r, c) lies in the grid and its cell is fillable.
    pub closed spec fn white(&self, r: int, c: int) -> bool {
        &&& 0 <= r < self.height
        &&& 0 <= c < self.width
        &&& cell_white(self.cells@[r * self.width + c])
    }

    /// The letter held at (r, c), if any.
    pub closed spec fn letter_at(&self, r: int, c: int) -> Option<Letter> {
        cell_letter(self.cells@[r * self.width + c])
    }

    /// Sane dimensions: both at least one, the cell vector exactly filling
    /// them, and few enough cells for entry numbers to fit.
    pub closed spec fn dims_ok(&self) -> bool {
        &&& 1 <= self.width
        &&& 1 <= self.height
        &&& self.cells@.len() == self.width * self.height
        &&& self.width * self.height < u32::MAX
    }

    // -- runs ----------------------------------------------------------------

    /// How many consecutive fillable cells start at (r, c) going right.
    pub closed spec fn across_len(&self, r: int, c: int) -> nat
        decreases self.spec_width() - c,
    {
        if self.white(r, c) {
            (1 + self.across_len(r, c + 1)) as nat
        } else {
            0
        }
    }

    /// How many consecutive fillable cells start at (r, c) going down.
    pub closed spec fn down_len(&self, r: int, c: int) -> nat
        decreases self.spec_height() - r,
    {
        if self.white(r, c) {
            (1 + self.down_len(r + 1, c)) as nat
        } else {
            0
        }
    }

    /// Whether a maximal across run of length at least three starts here.
    pub closed spec fn across_start(&self, r: int, c: int) -> bool {
        &&& self.white(r, c)
        &&& !self.white(r, c - 1)
        &&& self.across_len(r, c) >= 3
    }

    /// Whether a maximal down run of length at least three starts here.
    pub closed spec fn down_start(&self, r: int, c: int) -> bool {
        &&& self.white(r, c)
        &&& !self.white(r - 1, c)
        &&& self.down_len(r, c) >= 3
    }

    /// Whether some entry starts here.
    pub closed spec fn is_start(&self, r: int, c: int) -> bool {
        self.across_start(r, c) || self.down_start(r, c)
    }

    /// The coordinates of the across run starting at (r, c), left to right.
    pub closed spec fn across_coords(&self, r: int, c: int) -> Seq<GridCoord> {
        Seq::new(
            self.across_len(r, c),
            |i: int| GridCoord { row: r as usize, col: (c + i) as usize },
        )
    }

    /// The coordinates of the down run starting at (r, c), top to bottom.
    pub closed spec fn down_coords(&self, r: int, c: int) -> Seq<GridCoord> {
        Seq::new(
            self.down_len(r, c),
            |i: int| GridCoord { row: (r + i) as usize, col: c as usize },
        )
    }

    // -- numbering -----------------------------------------------------------

    /// How many coordinates before linear position k (row-major) start an
    /// entry.
    pub closed spec fn starts_before(&self, k: int) -> nat
        decreases k,
    {
        if k <= 0 {
            0
        } else {
            self.starts_before(k - 1) + if self.is_start(
                (k - 1) / (self.width as int),
                (k - 1) % (self.width as int),
            ) {
                1nat
            } else {
                0nat
            }
        }
    }

    /// The crossword number assigned to the entry starting at (r, c).
    pub closed spec fn start_num(&self, r: int, c: int) -> int {
        1 + self.starts_before(r * self.width + c) as int
    }

    // -- the recorded topology -----------------------------------------------

    /// Whether recorded entry e is the numbered run starting at (r, c).
    spec fn slot_is(&self, e: int, r: int, c: int) -> bool {
        &&& 0 <= e < self.entries@.len()
        &&& match self.entries@[e].0.dir {
            EntryDir::Across => {
                &&& self.across_start(r, c)
                &&& self.entries@[e].1@ == self.across_coords(r, c)
            },
            EntryDir::Down => {
                &&& self.down_start(r, c)
                &&& self.entries@[e].1@ == self.down_coords(r, c)
            },
        }
        &&& self.entries@[e].0.num == self.start_num(r, c)
    }

    /// Whether recorded entry e is a numbered run of some start.
    spec fn slot_ok(&self, e: int) -> bool {
        exists|r: int, c: int| self.slot_is(e, r, c)
    }

    /// Every recorded entry is a genuine numbered run.
    spec fn entries_sound(&self) -> bool {
        forall|e: int| 0 <= e < self.entries@.len() ==> #[trigger] self.slot_ok(e)
    }

    /// Every run start is recorded, with its number and coordinates.
    spec fn entries_complete(&self) -> bool {
        &&& forall|r: int, c: int| #[trigger]
            self.across_start(r, c) ==> exists|e: int|
                self.entries@[e].0.dir == EntryDir::Across && self.slot_is(e, r, c)
        &&& forall|r: int, c: int| #[trigger]
            self.down_start(r, c) ==> exists|e: int|
                self.entries@[e].0.dir == EntryDir::Down && self.slot_is(e, r, c)
    }

    /// No two recorded entries share an index.
    spec fn keys_unique(&self) -> bool {
        forall|e1: int, e2: int|
            0 <= e1 < e2 < self.entries@.len() ==> (#[trigger] self.entries@[e1]).0 != (
            #[trigger] self.entries@[e2]).0
    }

    /// The recorded entries are exactly the numbered runs of the layout.
    pub closed spec fn topology_ok(&self) -> bool {
        &&& self.entries_sound()
        &&& self.entries_complete()
        &&& self.keys_unique()
    }

    /// Whether an entry with this index is recorded.
    pub closed spec fn has_entry(&self, idx: EntryIndex) -> bool {
        exists|e: int|
            0 <= e < self.entries@.len() && (#[trigger] self.entries@[e]).0 == idx
    }

    /// The recorded coordinates of the entry with this index (meaningful
    /// only when `has_entry` holds).
    pub closed spec fn entry_coords(&self, idx: EntryIndex) -> Seq<GridCoord> {
        let e = choose|e: int|
            0 <= e < self.entries@.len() && (#[trigger] self.entries@[e]).0 == idx;
        self.entries@[e].1@
    }

    /// The current contents of the entry with this index: the letter under
    /// each of its coordinates, in scan order.
    pub closed spec fn entry_letters(&self, idx: EntryIndex) -> Seq<Option<Letter>> {
        let coords = self.entry_coords(idx);
        Seq::new(coords.len(), |i: int| self.letter_at(coords[i].row as int, coords[i].col as int))
    }

    /// Whether two distinct recorded entries share at least one coordinate.
    pub closed spec fn crossing(&self, a: EntryIndex, b: EntryIndex) -> bool {
        &&& a != b
        &&& self.has_entry(a)
        &&& self.has_entry(b)
        &&& exists|i: int, j: int|
            #![trigger self.entry_coords(a)[i], self.entry_coords(b)[j]]
            0 <= i < self.entry_coords(a).len() && 0 <= j < self.entry_coords(b).len()
                && self.entry_coords(a)[i] == self.entry_coords(b)[j]
    }

    /// The recorded crossing lists mirror the entries: one list per entry,
    /// holding exactly the indices that cross it, each once.
    spec fn perp_ok(&self) -> bool {
        &&& self.perpendicular_entries@.len() == self.entries@.len()
        &&& forall|e: int|
            0 <= e < self.entries@.len() ==> (#[trigger] self.perpendicular_entries@[e]).0
                == self.entries@[e].0
        &&& forall|e: int, j: EntryIndex|
            #![trigger self.perpendicular_entries@[e].1@.contains(j)]
            #![trigger self.crossing(self.entries@[e].0, j)]
            0 <= e < self.perpendicular_entries@.len() ==> (
            self.perpendicular_entries@[e].1@.contains(j) <==> self.crossing(
                self.entries@[e].0,
                j,
            ))
        &&& forall|e: int, j1: int, j2: int|
            #![trigger self.perpendicular_entries@[e].1@[j1], self.perpendicular_entries@[e].1@[j2]]
            0 <= e < self.perpendicular_entries@.len() && 0 <= j1 < j2
                < self.perpendicular_entries@[e].1@.len()
                ==> self.perpendicular_entries@[e].1@[j1] != self.perpendicular_entries@[e].1@[j2]
    }

    /// Overall well-formedness: sane dimensions and a topology that exactly
    /// reflects the layout.
    pub closed spec fn wf(&self) -> bool {
        &&& self.dims_ok()
        &&& self.topology_ok()
        &&& self.perp_ok()
    }

    // -- basic lemmas --------------------------------------------------------

    /// Row-major linear positions decompose uniquely into row and column.
    proof fn lemma_lin_div_mod(&self, r: int, c: int)
        requires
            self.dims_ok(),
            0 <= r,
            0 <= c < self.width,
        ensures
            (r * self.width + c) / (self.width as int) == r,
            (r * self.width + c) % (self.width as int) == c,
    {
        let w = self.width as int;
        assert((r * w + c) / w == r && (r * w + c) % w == c) by (nonlinear_arith)
            requires
                0 <= r,
                0 <= c < w,
        ;
    }

    /// A linear position of an in-grid coordinate lies within the cell
    /// vector.
    proof fn lemma_lin_bound(&self, r: int, c: int)
        requires
            self.dims_ok(),
            0 <= r < self.height,
            0 <= c < self.width,
        ensures
            0 <= r * self.width + c < self.width * self.height,
    {
        let w = self.width as int;
        let h = self.height as int;
        assert(0 <= r * w + c < w * h) by (nonlinear_arith)
            requires
                0 <= r < h,
                0 <= c < w,
        ;
    }

    /// Distinct in-grid coordinates occupy distinct linear positions.
    proof fn lemma_lin_injective(&self, r1: int, c1: int, r2: int, c2: int)
        requires
            self.dims_ok(),
            0 <= r1 < self.height,
            0 <= c1 < self.width,
            0 <= r2 < self.height,
            0 <= c2 < self.width,
            r1 * self.width + c1 == r2 * self.width + c2,
        ensures
            r1 == r2,
            c1 == c2,
    {
        self.lemma_lin_div_mod(r1, c1);
        self.lemma_lin_div_mod(r2, c2);
    }

    /// At most k of the first k positions are starts.
    proof fn lemma_starts_before_le(&self, k: int)
        requires
            0 <= k,
        ensures
            self.starts_before(k) <= k,
        decreases k,
    {
        if k > 0 {
            self.lemma_starts_before_le(k - 1);
        }
    }

    /// Every coordinate of an across run is fillable, sits in row r, and at
    /// most `across_len` columns right of the start.
    proof fn lemma_across_run_white(&self, r: int, c: int, i: int)
        requires
            0 <= i < self.across_len(r, c),
        ensures
            self.white(r, c + i),
        decreases i,
    {
        if i > 0 {
            self.lemma_across_run_white(r, c + 1, i - 1);
        }
    }

    /// Every coordinate of a down run is fillable.
    proof fn lemma_down_run_white(&self, r: int, c: int, i: int)
        requires
            0 <= i < self.down_len(r, c),
        ensures
            self.white(r + i, c),
        decreases i,
    {
        if i > 0 {
            self.lemma_down_run_white(r + 1, c, i - 1);
        }
    }

    /// An across run over a fully fillable span decomposes additively.
    proof fn lemma_across_decompose(&self, r: int, c: int, m: int)
        requires
            c <= m,
            forall|x: int| c <= x < m ==> self.white(r, x),
        ensures
            self.across_len(r, c) == (m - c) + self.across_len(r, m),
        decreases m - c,
    {
        if c < m {
            assert(self.white(r, c));
            self.lemma_across_decompose(r, c + 1, m);
        }
    }

    /// A down run over a fully fillable span decomposes additively.
    proof fn lemma_down_decompose(&self, r: int, c: int, m: int)
        requires
            r <= m,
            forall|x: int| r <= x < m ==> self.white(x, c),
        ensures
            self.down_len(r, c) == (m - r) + self.down_len(m, c),
        decreases m - r,
    {
        if r < m {
            assert(self.white(r, c));
            self.lemma_down_decompose(r + 1, c, m);
        }
    }

    // -- exec layout helpers -------------------------------------------------

    /// The cell-vector position of the in-range coordinate (r, c).
    fn idx_of(&self, r: usize, c: usize) -> (i: usize)
        requires
            self.dims_ok(),
            r < self.spec_height(),
            c < self.spec_width(),
        ensures
            i == r * self.spec_width() + c,
            i < self.cells@.len(),
    {
        proof {
            self.lemma_lin_bound(r as int, c as int);
        }
        r * self.width + c
    }

    /// Whether (r, c) is in range and fillable.
    fn is_white_at(&self, r: usize, c: usize) -> (b: bool)
        requires
            self.dims_ok(),
        ensures
            b == self.white(r as int, c as int),
    {
        if r < self.height && c < self.width {
            let i = self.idx_of(r, c);
            self.cells[i].is_white()
        } else {
            false
        }
    }

    /// The coordinates of the across run starting at (r, c); empty when the
    /// cell there is not fillable.
    fn across_run(&self, r: usize, c: usize) -> (v: Vec<GridCoord>)
        requires
            self.dims_ok(),
        ensures
            v@ == self.across_coords(r as int, c as int),
    {
        let mut v: Vec<GridCoord> = Vec::new();
        let mut cc: usize = c;
        while self.is_white_at(r, cc)
            invariant
                self.dims_ok(),
                c <= cc <= self.spec_width() || cc == c,
                forall|x: int| c <= x < cc ==> self.white(r as int, x),
                v@ == Seq::new((cc - c) as nat, |i: int| GridCoord { row: r, col: (c + i) as usize }),
            decreases self.spec_width() - cc,
        {
            v.push(GridCoord::new(r, cc));
            proof {
                assert(v@ =~= Seq::new(
                    (cc + 1 - c) as nat,
                    |i: int| GridCoord { row: r, col: (c + i) as usize },
                ));
            }
            cc += 1;
        }
        proof {
            self.lemma_across_decompose(r as int, c as int, cc as int);
            assert(self.across_len(r as int, cc as int) == 0);
            assert(self.across_len(r as int, c as int) == cc - c);
            assert(v@ =~= self.across_coords(r as int, c as int));
        }
        v
    }

    /// The coordinates of the down run starting at (r, c); empty when the
    /// cell there is not fillable.
    fn down_run(&self, r: usize, c: usize) -> (v: Vec<GridCoord>)
        requires
            self.dims_ok(),
        ensures
            v@ == self.down_coords(r as int, c as int),
    {
        let mut v: Vec<GridCoord> = Vec::new();
        let mut rr: usize = r;
        while self.is_white_at(rr, c)
            invariant
                self.dims_ok(),
                r <= rr <= self.spec_height() || rr == r,
                forall|x: int| r <= x < rr ==> self.white(x, c as int),
                v@ == Seq::new((rr - r) as nat, |i: int| GridCoord { row: (r + i) as usize, col: c }),
            decreases self.spec_height() - rr,
        {
            v.push(GridCoord::new(rr, c));
            proof {
                assert(v@ =~= Seq::new(
                    (rr + 1 - r) as nat,
                    |i: int| GridCoord { row: (r + i) as usize, col: c },
                ));
            }
            rr += 1;
        }
        proof {
            self.lemma_down_decompose(r as int, c as int, rr as int);
            assert(self.down_len(rr as int, c as int) == 0);
            assert(self.down_len(r as int, c as int) == rr - r);
            assert(v@ =~= self.down_coords(r as int, c as int));
        }
        v
    }

    /// Whether a maximal across run of length at least three starts here.
    fn is_across_start_at(&self, r: usize, c: usize) -> (b: bool)
        requires
            self.dims_ok(),
        ensures
            b == self.across_start(r as int, c as int),
    {
        let ghost ri = r as int;
        let ghost ci = c as int;
        if !self.is_white_at(r, c) {
            return false;
        }
        if c > 0 && self.is_white_at(r, c - 1) {
            return false;
        }
        let b = self.is_white_at(r, c + 1) && self.is_white_at(r, c + 2);
        proof {
            if b {
                assert(self.across_len(ri, ci + 2) >= 1);
                assert(self.across_len(ri, ci + 1) >= 2);
                assert(self.across_len(ri, ci) >= 3);
            } else {
                if !self.white(ri, ci + 1) {
                    assert(self.across_len(ri, ci + 1) == 0);
                    assert(self.across_len(ri, ci) == 1);
                } else if !self.white(ri, ci + 2) {
                    assert(self.across_len(ri, ci + 2) == 0);
                    assert(self.across_len(ri, ci + 1) == 1);
                    assert(self.across_len(ri, ci) == 2);
                }
            }
        }
        b
    }

    /// Whether a maximal down run of length at least three starts here.
    fn is_down_start_at(&self, r: usize, c: usize) -> (b: bool)
        requires
            self.dims_ok(),
        ensures
            b == self.down_start(r as int, c as int),
    {
        let ghost ri = r as int;
        let ghost ci = c as int;
        if !self.is_white_at(r, c) {
            return false;
        }
        if r > 0 && self.is_white_at(r - 1, c) {
            return false;
        }
        let b = self.is_white_at(r + 1, c) && self.is_white_at(r + 2, c);
        proof {
            if b {
                assert(self.down_len(ri + 2, ci) >= 1);
                assert(self.down_len(ri + 1, ci) >= 2);
                assert(self.down_len(ri, ci) >= 3);
            } else {
                if !self.white(ri + 1, ci) {
                    assert(self.down_len(ri + 1, ci) == 0);
                    assert(self.down_len(ri, ci) == 1);
                } else if !self.white(ri + 2, ci) {
                    assert(self.down_len(ri + 2, ci) == 0);
                    assert(self.down_len(ri + 1, ci) == 1);
                    assert(self.down_len(ri, ci) == 2);
                }
            }
        }
        b
    }

    // -- congruence lemmas ---------------------------------------------------
    //
    // The run, start and numbering functions read only the cell layout, and
    // the entry views read only the entry list; these lemmas let facts about
    // them survive updates to the other parts of the structure.

    /// Across run lengths agree between grids with the same fillable mask.
    proof fn lemma_layout_across_len(g1: Grid, g2: Grid, r: int, c: int)
        requires
            g1.width == g2.width,
            g1.height == g2.height,
            forall|rr: int, cc: int| g1.white(rr, cc) == g2.white(rr, cc),
        ensures
            g1.across_len(r, c) == g2.across_len(r, c),
        decreases g1.spec_width() - c,
    {
        if g1.white(r, c) {
            Self::lemma_layout_across_len(g1, g2, r, c + 1);
        }
    }

    /// Down run lengths agree between grids with the same fillable mask.
    proof fn lemma_layout_down_len(g1: Grid, g2: Grid, r: int, c: int)
        requires
            g1.width == g2.width,
            g1.height == g2.height,
            forall|rr: int, cc: int| g1.white(rr, cc) == g2.white(rr, cc),
        ensures
            g1.down_len(r, c) == g2.down_len(r, c),
        decreases g1.spec_height() - r,
    {
        if g1.white(r, c) {
            Self::lemma_layout_down_len(g1, g2, r + 1, c);
        }
    }

    /// Start counts agree between grids with the same fillable mask.
    proof fn lemma_layout_starts_before(g1: Grid, g2: Grid, k: int)
        requires
            g1.width == g2.width,
            g1.height == g2.height,
            forall|rr: int, cc: int| g1.white(rr, cc) == g2.white(rr, cc),
        ensures
            g1.starts_before(k) == g2.starts_before(k),
        decreases k,
    {
        if k > 0 {
            Self::lemma_layout_starts_before(g1, g2, k - 1);
            let r = (k - 1) / (g1.width as int);
            let c = (k - 1) % (g1.width as int);
            Self::lemma_layout_across_len(g1, g2, r, c);
            Self::lemma_layout_down_len(g1, g2, r, c);
        }
    }

    /// Everything derived from the cell layout agrees between grids with the
    /// same layout.
    proof fn lemma_same_layout(g1: Grid, g2: Grid)
        requires
            g1.cells@ == g2.cells@,
            g1.width == g2.width,
            g1.height == g2.height,
        ensures
            forall|r: int, c: int|
                #![trigger g1.white(r, c)]
                #![trigger g2.white(r, c)]
                g1.white(r, c) == g2.white(r, c),
            forall|r: int, c: int|
                #![trigger g1.letter_at(r, c)]
                #![trigger g2.letter_at(r, c)]
                g1.letter_at(r, c) == g2.letter_at(r, c),
            forall|r: int, c: int|
                #![trigger g1.across_len(r, c)]
                #![trigger g2.across_len(r, c)]
                g1.across_len(r, c) == g2.across_len(r, c),
            forall|r: int, c: int|
                #![trigger g1.down_len(r, c)]
                #![trigger g2.down_len(r, c)]
                g1.down_len(r, c) == g2.down_len(r, c),
            forall|r: int, c: int|
                #![trigger g1.across_start(r, c)]
                #![trigger g2.across_start(r, c)]
                g1.across_start(r, c) == g2.across_start(r, c),
            forall|r: int, c: int|
                #![trigger g1.down_start(r, c)]
                #![trigger g2.down_start(r, c)]
                g1.down_start(r, c) == g2.down_start(r, c),
            forall|r: int, c: int|
                #![trigger g1.is_start(r, c)]
                #![trigger g2.is_start(r, c)]
                g1.is_start(r, c) == g2.is_start(r, c),
            forall|r: int, c: int|
                #![trigger g1.across_coords(r, c)]
                #![trigger g2.across_coords(r, c)]
                g1.across_coords(r, c) == g2.across_coords(r, c),
            forall|r: int, c: int|
                #![trigger g1.down_coords(r, c)]
                #![trigger g2.down_coords(r, c)]
                g1.down_coords(r, c) == g2.down_coords(r, c),
            forall|k: int|
                #![trigger g1.starts_before(k)]
                #![trigger g2.starts_before(k)]
                g1.starts_before(k) == g2.starts_before(k),
            forall|r: int, c: int|
                #![trigger g1.start_num(r, c)]
                #![trigger g2.start_num(r, c)]
                g1.start_num(r, c) == g2.start_num(r, c),
    {
        assert forall|r: int, c: int| g1.across_len(r, c) == g2.across_len(r, c) by {
            Self::lemma_layout_across_len(g1, g2, r, c);
        }
        assert forall|r: int, c: int| g1.down_len(r, c) == g2.down_len(r, c) by {
            Self::lemma_layout_down_len(g1, g2, r, c);
        }
        assert forall|k: int| g1.starts_before(k) == g2.starts_before(k) by {
            Self::lemma_layout_starts_before(g1, g2, k);
        }
        assert forall|r: int, c: int| g1.across_coords(r, c) == g2.across_coords(r, c) by {
            Self::lemma_layout_across_len(g1, g2, r, c);
            assert(g1.across_coords(r, c) =~= g2.across_coords(r, c));
        }
        assert forall|r: int, c: int| g1.down_coords(r, c) == g2.down_coords(r, c) by {
            Self::lemma_layout_down_len(g1, g2, r, c);
            assert(g1.down_coords(r, c) =~= g2.down_coords(r, c));
        }
    }

    /// Everything derived from the layout and the entry list agrees between
    /// grids that share both, whatever their crossing lists hold.
    proof fn lemma_same_core(g1: Grid, g2: Grid)
        requires
            g1.cells@ == g2.cells@,
            g1.width == g2.width,
            g1.height == g2.height,
            g1.entries@ == g2.entries@,
            g1.keys_unique(),
        ensures
            forall|e: int, r: int, c: int|
                #![trigger g1.slot_is(e, r, c)]
                #![trigger g2.slot_is(e, r, c)]
                g1.slot_is(e, r, c) == g2.slot_is(e, r, c),
            forall|idx: EntryIndex|
                #![trigger g1.has_entry(idx)]
                #![trigger g2.has_entry(idx)]
                g1.has_entry(idx) == g2.has_entry(idx),
            forall|idx: EntryIndex|
                #![trigger g1.entry_coords(idx)]
                #![trigger g2.entry_coords(idx)]
                g1.has_entry(idx) ==> g1.entry_coords(idx) == g2.entry_coords(idx),
            forall|idx: EntryIndex|
                #![trigger g1.entry_letters(idx)]
                #![trigger g2.entry_letters(idx)]
                g1.has_entry(idx) ==> g1.entry_letters(idx) == g2.entry_letters(idx),
            forall|a: EntryIndex, b: EntryIndex|
                #![trigger g1.crossing(a, b)]
                #![trigger g2.crossing(a, b)]
                g1.crossing(a, b) == g2.crossing(a, b),
            g1.topology_ok() ==> g2.topology_ok(),
    {
        Self::lemma_same_layout(g1, g2);
        assert forall|idx: EntryIndex| g1.has_entry(idx) == g2.has_entry(idx) by {
            if g1.has_entry(idx) {
                let e = choose|e: int|
                    0 <= e < g1.entries@.len() && (#[trigger] g1.entries@[e]).0 == idx;
                assert(g2.entries@[e].0 == idx);
            }
            if g2.has_entry(idx) {
                let e = choose|e: int|
                    0 <= e < g2.entries@.len() && (#[trigger] g2.entries@[e]).0 == idx;
                assert(g1.entries@[e].0 == idx);
            }
        }
        assert forall|idx: EntryIndex|
            g1.has_entry(idx) implies g1.entry_coords(idx) == g2.entry_coords(idx)
            && g1.entry_letters(idx) == g2.entry_letters(idx) by {
            let e1 = choose|e: int|
                0 <= e < g1.entries@.len() && (#[trigger] g1.entries@[e]).0 == idx;
            let e2 = choose|e: int|
                0 <= e < g2.entries@.len() && (#[trigger] g2.entries@[e]).0 == idx;
            if e1 != e2 {
                if e1 < e2 {
                    assert(g1.entries@[e1].0 != g1.entries@[e2].0);
                } else {
                    assert(g1.entries@[e2].0 != g1.entries@[e1].0);
                }
            }
            assert(g1.entry_coords(idx) == g2.entry_coords(idx));
            assert(g1.entry_letters(idx) =~= g2.entry_letters(idx));
        }
        assert forall|a: EntryIndex, b: EntryIndex| g1.crossing(a, b) == g2.crossing(a, b) by {
            if g1.crossing(a, b) {
                assert(g1.entry_coords(a) == g2.entry_coords(a));
                assert(g1.entry_coords(b) == g2.entry_coords(b));
            }
            if g2.crossing(a, b) {
                assert(g1.entry_coords(a) == g2.entry_coords(a));
                assert(g1.entry_coords(b) == g2.entry_coords(b));
            }
        }
        assert forall|e: int, r: int, c: int|
            g1.slot_is(e, r, c) == g2.slot_is(e, r, c) by {
            if 0 <= e < g1.entries@.len() {
                assert(g1.entries@[e] == g2.entries@[e]);
            }
        }
        assert(g2.keys_unique()) by {
            assert forall|e1: int, e2: int|
                0 <= e1 < e2 < g2.entries@.len() implies (#[trigger] g2.entries@[e1]).0 != (
            #[trigger] g2.entries@[e2]).0 by {
                assert(g1.entries@[e1] == g2.entries@[e1]);
                assert(g1.entries@[e2] == g2.entries@[e2]);
            }
        }
        if g1.topology_ok() {
            assert forall|e: int|
                0 <= e < g2.entries@.len() implies #[trigger] g2.slot_ok(e) by {
                assert(g1.slot_ok(e));
                let (r, c) = choose|r: int, c: int| g1.slot_is(e, r, c);
                assert(g2.slot_is(e, r, c));
            }
            assert forall|r: int, c: int| #[trigger]
                g2.across_start(r, c) implies exists|e: int|
                g2.entries@[e].0.dir == EntryDir::Across && g2.slot_is(e, r, c) by {
                assert(g1.across_start(r, c));
                let e = choose|e: int|
                    g1.entries@[e].0.dir == EntryDir::Across && g1.slot_is(e, r, c);
                assert(g2.entries@[e].0.dir == EntryDir::Across && g2.slot_is(e, r, c));
            }
            assert forall|r: int, c: int| #[trigger]
                g2.down_start(r, c) implies exists|e: int|
                g2.entries@[e].0.dir == EntryDir::Down && g2.slot_is(e, r, c) by {
                assert(g1.down_start(r, c));
                let e = choose|e: int|
                    g1.entries@[e].0.dir == EntryDir::Down && g1.slot_is(e, r, c);
                assert(g2.entries@[e].0.dir == EntryDir::Down && g2.slot_is(e, r, c));
            }
        }
    }

    /// Everything the topology invariant speaks of survives a change that
    /// keeps the fillable mask, the entry list and the crossing lists: only
    /// the letters in cells may differ.
    proof fn lemma_same_structure(g1: Grid, g2: Grid)
        requires
            g1.width == g2.width,
            g1.height == g2.height,
            g1.cells@.len() == g2.cells@.len(),
            forall|rr: int, cc: int| g1.white(rr, cc) == g2.white(rr, cc),
            g1.entries@ == g2.entries@,
            g1.perpendicular_entries@ == g2.perpendicular_entries@,
            g1.keys_unique(),
        ensures
            forall|r: int, c: int|
                #![trigger g1.across_start(r, c)]
                #![trigger g2.across_start(r, c)]
                g1.across_start(r, c) == g2.across_start(r, c),
            forall|r: int, c: int|
                #![trigger g1.down_start(r, c)]
                #![trigger g2.down_start(r, c)]
                g1.down_start(r, c) == g2.down_start(r, c),
            forall|r: int, c: int|
                #![trigger g1.across_coords(r, c)]
                #![trigger g2.across_coords(r, c)]
                g1.across_coords(r, c) == g2.across_coords(r, c),
            forall|r: int, c: int|
                #![trigger g1.down_coords(r, c)]
                #![trigger g2.down_coords(r, c)]
                g1.down_coords(r, c) == g2.down_coords(r, c),
            forall|r: int, c: int|
                #![trigger g1.start_num(r, c)]
                #![trigger g2.start_num(r, c)]
                g1.start_num(r, c) == g2.start_num(r, c),
            forall|idx: EntryIndex|
                #![trigger g1.has_entry(idx)]
                #![trigger g2.has_entry(idx)]
                g1.has_entry(idx) == g2.has_entry(idx),
            forall|idx: EntryIndex|
                #![trigger g1.entry_coords(idx)]
                #![trigger g2.entry_coords(idx)]
                g1.has_entry(idx) ==> g1.entry_coords(idx) == g2.entry_coords(idx),
            forall|a: EntryIndex, b: EntryIndex|
                #![trigger g1.crossing(a, b)]
                #![trigger g2.crossing(a, b)]
                g1.crossing(a, b) == g2.crossing(a, b),
            g1.dims_ok() ==> g2.dims_ok(),
            g1.topology_ok() ==> g2.topology_ok(),
            g1.topology_ok() && g1.perp_ok() ==> g2.perp_ok(),
            g1.wf() ==> g2.wf(),
    {
        assert forall|r: int, c: int| g1.across_len(r, c) == g2.across_len(r, c) by {
            Self::lemma_layout_across_len(g1, g2, r, c);
        }
        assert forall|r: int, c: int| g1.down_len(r, c) == g2.down_len(r, c) by {
            Self::lemma_layout_down_len(g1, g2, r, c);
        }
        assert forall|k: int| g1.starts_before(k) == g2.starts_before(k) by {
            Self::lemma_layout_starts_before(g1, g2, k);
        }
        assert forall|r: int, c: int| g1.across_coords(r, c) == g2.across_coords(r, c) by {
            Self::lemma_layout_across_len(g1, g2, r, c);
            assert(g1.across_coords(r, c) =~= g2.across_coords(r, c));
        }
        assert forall|r: int, c: int| g1.down_coords(r, c) == g2.down_coords(r, c) by {
            Self::lemma_layout_down_len(g1, g2, r, c);
            assert(g1.down_coords(r, c) =~= g2.down_coords(r, c));
        }
        assert forall|idx: EntryIndex| g1.has_entry(idx) == g2.has_entry(idx) by {
            if g1.has_entry(idx) {
                let e = choose|e: int|
                    0 <= e < g1.entries@.len() && (#[trigger] g1.entries@[e]).0 == idx;
                assert(g2.entries@[e].0 == idx);
            }
            if g2.has_entry(idx) {
                let e = choose|e: int|
                    0 <= e < g2.entries@.len() && (#[trigger] g2.entries@[e]).0 == idx;
                assert(g1.entries@[e].0 == idx);
            }
        }
        assert forall|idx: EntryIndex|
            g1.has_entry(idx) implies g1.entry_coords(idx) == g2.entry_coords(idx) by {
            let e1 = choose|e: int|
                0 <= e < g1.entries@.len() && (#[trigger] g1.entries@[e]).0 == idx;
            let e2 = choose|e: int|
                0 <= e < g2.entries@.len() && (#[trigger] g2.entries@[e]).0 == idx;
            if e1 != e2 {
                if e1 < e2 {
                    assert(g1.entries@[e1].0 != g1.entries@[e2].0);
                } else {
                    assert(g1.entries@[e2].0 != g1.entries@[e1].0);
                }
            }
        }
        assert forall|a: EntryIndex, b: EntryIndex| g1.crossing(a, b) == g2.crossing(a, b) by {
            if g1.crossing(a, b) {
                assert(g1.entry_coords(a) == g2.entry_coords(a));
                assert(g1.entry_coords(b) == g2.entry_coords(b));
            }
            if g2.crossing(a, b) {
                assert(g1.entry_coords(a) == g2.entry_coords(a));
                assert(g1.entry_coords(b) == g2.entry_coords(b));
            }
        }
        assert forall|e: int, r: int, c: int|
            #![trigger g1.slot_is(e, r, c)]
            #![trigger g2.slot_is(e, r, c)]
            g1.slot_is(e, r, c) == g2.slot_is(e, r, c) by {
            if 0 <= e < g1.entries@.len() {
                assert(g1.entries@[e] == g2.entries@[e]);
            }
        }
        assert(g2.keys_unique()) by {
            assert forall|e1: int, e2: int|
                0 <= e1 < e2 < g2.entries@.len() implies (#[trigger] g2.entries@[e1]).0 != (
            #[trigger] g2.entries@[e2]).0 by {
                assert(g1.entries@[e1] == g2.entries@[e1]);
                assert(g1.entries@[e2] == g2.entries@[e2]);
            }
        }
        if g1.topology_ok() {
            assert forall|e: int|
                0 <= e < g2.entries@.len() implies #[trigger] g2.slot_ok(e) by {
                assert(g1.slot_ok(e));
                let (r, c) = choose|r: int, c: int| g1.slot_is(e, r, c);
                assert(g2.slot_is(e, r, c));
            }
            assert forall|r: int, c: int| #[trigger]
                g2.across_start(r, c) implies exists|e: int|
                g2.entries@[e].0.dir == EntryDir::Across && g2.slot_is(e, r, c) by {
                assert(g1.across_start(r, c));
                let e = choose|e: int|
                    g1.entries@[e].0.dir == EntryDir::Across && g1.slot_is(e, r, c);
                assert(g2.entries@[e].0.dir == EntryDir::Across && g2.slot_is(e, r, c));
            }
            assert forall|r: int, c: int| #[trigger]
                g2.down_start(r, c) implies exists|e: int|
                g2.entries@[e].0.dir == EntryDir::Down && g2.slot_is(e, r, c) by {
                assert(g1.down_start(r, c));
                let e = choose|e: int|
                    g1.entries@[e].0.dir == EntryDir::Down && g1.slot_is(e, r, c);
                assert(g2.entries@[e].0.dir == EntryDir::Down && g2.slot_is(e, r, c));
            }
            if g1.perp_ok() {
                assert forall|e: int, j: EntryIndex|
                    #![trigger g2.perpendicular_entries@[e].1@.contains(j)]
                    #![trigger g2.crossing(g2.entries@[e].0, j)]
                    0 <= e < g2.perpendicular_entries@.len() implies (
                g2.perpendicular_entries@[e].1@.contains(j) <==> g2.crossing(
                    g2.entries@[e].0,
                    j,
                )) by {
                    assert(g1.perpendicular_entries@[e] == g2.perpendicular_entries@[e]);
                    assert(g1.entries@[e] == g2.entries@[e]);
                    assert(g1.perpendicular_entries@[e].1@.contains(j) <==> g1.crossing(
                        g1.entries@[e].0,
                        j,
                    ));
                    assert(g1.crossing(g1.entries@[e].0, j) == g2.crossing(g2.entries@[e].0, j));
                }
                assert forall|e: int|
                    0 <= e < g2.entries@.len() implies (#[trigger] g2.perpendicular_entries@[e]).0
                    == g2.entries@[e].0 by {
                    assert(g1.perpendicular_entries@[e] == g2.perpendicular_entries@[e]);
                    assert(g1.entries@[e] == g2.entries@[e]);
                }
                assert forall|e: int, j1: int, j2: int|
                    #![trigger g2.perpendicular_entries@[e].1@[j1], g2.perpendicular_entries@[e].1@[j2]]
                    0 <= e < g2.perpendicular_entries@.len() && 0 <= j1 < j2
                        < g2.perpendicular_entries@[e].1@.len() implies g2.perpendicular_entries@[e].1@[j1]
                    != g2.perpendicular_entries@[e].1@[j2] by {
                    assert(g1.perpendicular_entries@[e] == g2.perpendicular_entries@[e]);
                }
            }
        }
    }

    // -- rebuilding the topology ---------------------------------------------

    /// Recomputes the entry list and crossing lists from the current layout:
    /// scan the grid row-major, record at every coordinate the across and
    /// down runs that start there, giving both the same number, and then
    /// record for every entry which others share a coordinate with it.
    fn rebuild(&mut self)
        requires
            old(self).dims_ok(),
        ensures
            final(self).dims_ok(),
            final(self).cells@ == old(self).cells@,
            final(self).width == old(self).width,
            final(self).height == old(self).height,
            final(self).topology_ok(),
            final(self).perp_ok(),
    {
        let ghost w = self.spec_width();
        self.entries = Vec::new();
        let mut counter: u32 = 1;
        let mut r: usize = 0;
        proof {
            assert(self.starts_before(0) == 0);
        }
        while r < self.height
            invariant
                self.dims_ok(),
                self.cells@ == old(self).cells@,
                self.width == old(self).width,
                self.height == old(self).height,
                w == self.spec_width(),
                r <= self.spec_height(),
                counter as int == 1 + self.starts_before(r * w),
                self.entries_sound(),
                forall|rr: int, cc: int| #[trigger]
                    self.across_start(rr, cc) && rr * w + cc < r * w ==> exists|e: int|
                        self.entries@[e].0.dir == EntryDir::Across && self.slot_is(e, rr, cc),
                forall|rr: int, cc: int| #[trigger]
                    self.down_start(rr, cc) && rr * w + cc < r * w ==> exists|e: int|
                        self.entries@[e].0.dir == EntryDir::Down && self.slot_is(e, rr, cc),
                forall|e: int| #![trigger self.entries@[e]]
                    0 <= e < self.entries@.len() ==> 1 <= self.entries@[e].0.num < counter,
                self.keys_unique(),
            decreases self.spec_height() - r,
        {
            let mut c: usize = 0;
            while c < self.width
                invariant
                    self.dims_ok(),
                    self.cells@ == old(self).cells@,
                    self.width == old(self).width,
                    self.height == old(self).height,
                    w == self.spec_width(),
                    r < self.spec_height(),
                    c <= self.spec_width(),
                    counter as int == 1 + self.starts_before(r * w + c),
                    self.entries_sound(),
                    forall|rr: int, cc: int| #[trigger]
                        self.across_start(rr, cc) && rr * w + cc < r * w + c ==> exists|e: int|
                            self.entries@[e].0.dir == EntryDir::Across && self.slot_is(e, rr, cc),
                    forall|rr: int, cc: int| #[trigger]
                        self.down_start(rr, cc) && rr * w + cc < r * w + c ==> exists|e: int|
                            self.entries@[e].0.dir == EntryDir::Down && self.slot_is(e, rr, cc),
                    forall|e: int| #![trigger self.entries@[e]]
                        0 <= e < self.entries@.len() ==> 1 <= self.entries@[e].0.num < counter,
                    self.keys_unique(),
                decreases self.spec_width() - c,
            {
                let ghost pos = r * w + c;
                let ghost pre = *self;
                proof {
                    self.lemma_lin_bound(r as int, c as int);
                    self.lemma_starts_before_le(pos);
                }
                let across = self.is_across_start_at(r, c);
                let down = self.is_down_start_at(r, c);
                let arun = self.across_run(r, c);
                let drun = self.down_run(r, c);
                if across {
                    let idx = EntryIndex { num: counter, dir: EntryDir::Across };
                    self.entries.push((idx, arun));
                }
                if down {
                    let idx = EntryIndex { num: counter, dir: EntryDir::Down };
                    self.entries.push((idx, drun));
                }
                proof {
                    // Nothing about the layout changed; only the entry list
                    // grew by the runs starting at (r, c).
                    Self::lemma_same_layout(pre, *self);
                    let n0 = pre.entries@.len() as int;
                    assert forall|e: int|
                        0 <= e < n0 implies self.entries@[e] == pre.entries@[e] by {}
                    assert forall|rr: int, cc: int, e: int| #![trigger pre.slot_is(e, rr, cc)]
                        pre.slot_is(e, rr, cc) implies self.slot_is(e, rr, cc) by {
                        assert(self.entries@[e] == pre.entries@[e]);
                        assert(pre.across_start(rr, cc) == self.across_start(rr, cc));
                        assert(pre.down_start(rr, cc) == self.down_start(rr, cc));
                        assert(pre.across_coords(rr, cc) == self.across_coords(rr, cc));
                        assert(pre.down_coords(rr, cc) == self.down_coords(rr, cc));
                        assert(pre.start_num(rr, cc) == self.start_num(rr, cc));
                    }
                    if across {
                        let e = if down { self.entries@.len() - 2 } else { self.entries@.len() - 1 };
                        assert(self.entries@[e].0 == EntryIndex { num: counter, dir: EntryDir::Across });
                        assert(self.entries@[e].1@ == self.across_coords(r as int, c as int));
                        assert(self.slot_is(e, r as int, c as int));
                    }
                    if down {
                        let e = self.entries@.len() - 1;
                        assert(self.entries@[e].0 == EntryIndex { num: counter, dir: EntryDir::Down });
                        assert(self.entries@[e].1@ == self.down_coords(r as int, c as int));
                        assert(self.slot_is(e, r as int, c as int));
                    }
                    // The new keys carry the current number, every older key
                    // a smaller one, and the two new keys differ in direction.
                    assert forall|e1: int, e2: int|
                        0 <= e1 < e2 < self.entries@.len() implies (
                    #[trigger] self.entries@[e1]).0 != (#[trigger] self.entries@[e2]).0 by {
                        if e2 < n0 {
                            assert(self.entries@[e1] == pre.entries@[e1]);
                            assert(self.entries@[e2] == pre.entries@[e2]);
                        } else if e1 < n0 {
                            assert(self.entries@[e1] == pre.entries@[e1]);
                            assert(pre.entries@[e1].0.num < counter);
                            assert(self.entries@[e2].0.num == counter);
                        } else {
                            assert(self.entries@[e1].0.dir == EntryDir::Across);
                            assert(self.entries@[e2].0.dir == EntryDir::Down);
                        }
                    }
                }
                if across || down {
                    proof {
                        assert(counter as int <= 1 + pos);
                        assert(pos < w * self.spec_height());
                    }
                    counter += 1;
                }
                proof {
                    // The number counter advances exactly with the start count.
                    let k = pos + 1;
                    assert(self.starts_before(k) == self.starts_before(pos) + if self.is_start(
                        (k - 1) / w,
                        (k - 1) % w,
                    ) {
                        1nat
                    } else {
                        0nat
                    });
                    self.lemma_lin_div_mod(r as int, c as int);
                    assert((k - 1) / w == r as int && (k - 1) % w == c as int);
                    assert(self.is_start(r as int, c as int) == (across || down));
                    assert(counter as int == 1 + self.starts_before(pos + 1));
                    // Soundness carries over, and the new entries are runs.
                    assert forall|e: int|
                        0 <= e < self.entries@.len() implies #[trigger] self.slot_ok(e) by {
                        let n0 = pre.entries@.len() as int;
                        if e < n0 {
                            assert(pre.slot_ok(e));
                            let (rr, cc) = choose|rr: int, cc: int| pre.slot_is(e, rr, cc);
                            assert(self.slot_is(e, rr, cc));
                        } else {
                            assert(self.slot_is(e, r as int, c as int));
                        }
                    }
                    assert forall|rr: int, cc: int|
                        (#[trigger] self.across_start(rr, cc)) && rr * w + cc < pos + 1 implies
                        exists|e: int|
                            self.entries@[e].0.dir == EntryDir::Across && self.slot_is(
                                e,
                                rr,
                                cc,
                            ) by {
                        if rr * w + cc < pos {
                            let e = choose|e: int|
                                pre.entries@[e].0.dir == EntryDir::Across && pre.slot_is(e, rr, cc);
                            assert(self.slot_is(e, rr, cc));
                            assert(self.entries@[e].0.dir == EntryDir::Across);
                        } else {
                            self.lemma_lin_injective(rr, cc, r as int, c as int);
                            let e = if down {
                                self.entries@.len() - 2
                            } else {
                                self.entries@.len() - 1
                            };
                            assert(self.entries@[e].0.dir == EntryDir::Across && self.slot_is(
                                e,
                                rr,
                                cc,
                            ));
                        }
                    }
                    assert forall|rr: int, cc: int|
                        (#[trigger] self.down_start(rr, cc)) && rr * w + cc < pos + 1 implies
                        exists|e: int|
                            self.entries@[e].0.dir == EntryDir::Down && self.slot_is(e, rr, cc) by {
                        if rr * w + cc < pos {
                            let e = choose|e: int|
                                pre.entries@[e].0.dir == EntryDir::Down && pre.slot_is(e, rr, cc);
                            assert(self.slot_is(e, rr, cc));
                            assert(self.entries@[e].0.dir == EntryDir::Down);
                        } else {
                            self.lemma_lin_injective(rr, cc, r as int, c as int);
                            let e = self.entries@.len() - 1;
                            assert(self.entries@[e].0.dir == EntryDir::Down && self.slot_is(
                                e,
                                rr,
                                cc,
                            ));
                        }
                    }
                    assert(pos + 1 == r * w + (c + 1));
                }
                c += 1;
            }
            proof {
                assert((r as int) * w + w == ((r as int) + 1) * w) by (nonlinear_arith);
            }
            r += 1;
        }
        proof {
            let h = self.spec_height();
            assert forall|rr: int, cc: int| #[trigger]
                self.across_start(rr, cc) implies rr * w + cc < h * w by {
                self.lemma_lin_bound(rr, cc);
                assert(w * h == h * w) by (nonlinear_arith);
            }
            assert forall|rr: int, cc: int| #[trigger]
                self.down_start(rr, cc) implies rr * w + cc < h * w by {
                self.lemma_lin_bound(rr, cc);
                assert(w * h == h * w) by (nonlinear_arith);
            }
            assert(self.topology_ok());
        }
        self.rebuild_perps();
    }

    /// Rebuilds the crossing lists from the entry list.
    #[verifier::rlimit(60)]
    #[verifier::loop_isolation(false)]
    fn rebuild_perps(&mut self)
        requires
            old(self).dims_ok(),
            old(self).topology_ok(),
        ensures
            final(self).dims_ok(),
            final(self).cells@ == old(self).cells@,
            final(self).width == old(self).width,
            final(self).height == old(self).height,
            final(self).entries@ == old(self).entries@,
            final(self).topology_ok(),
            final(self).perp_ok(),
    {
        let mut perps: Vec<(EntryIndex, Vec<EntryIndex>)> = Vec::new();
        let mut e: usize = 0;
        while e < self.entries.len()
            invariant
                perps@.len() == e,
                e <= self.entries@.len(),
                forall|p: int|
                    0 <= p < e ==> (#[trigger] perps@[p]).0 == self.entries@[p].0,
                forall|p: int, j: EntryIndex|
                    #![trigger perps@[p].1@.contains(j)]
                    #![trigger self.crossing(self.entries@[p].0, j)]
                    0 <= p < e ==> (perps@[p].1@.contains(j) <==> self.crossing(
                        self.entries@[p].0,
                        j,
                    )),
                forall|p: int, j1: int, j2: int|
                    #![trigger perps@[p].1@[j1], perps@[p].1@[j2]]
                    0 <= p < e && 0 <= j1 < j2 < perps@[p].1@.len() ==> perps@[p].1@[j1]
                        != perps@[p].1@[j2],
            decreases self.entries@.len() - e,
        {
            let idx = self.entries[e].0;
            let ghost ei = e as int;
            proof {
                self.lemma_entry_at(ei);
            }
            let mut lst: Vec<EntryIndex> = Vec::new();
            let mut f: usize = 0;
            while f < self.entries.len()
                invariant
                    f <= self.entries@.len(),
                    forall|j: EntryIndex| #[trigger]
                        lst@.contains(j) ==> self.crossing(idx, j),
                    forall|q: int|
                        0 <= q < f && q != ei && self.crossing(
                            idx,
                            (#[trigger] self.entries@[q]).0,
                        ) ==> lst@.contains(self.entries@[q].0),
                    forall|j: EntryIndex| #[trigger]
                        lst@.contains(j) ==> exists|q: int|
                            0 <= q < f && (#[trigger] self.entries@[q]).0 == j,
                    forall|j1: int, j2: int|
                        #![trigger lst@[j1], lst@[j2]]
                        0 <= j1 < j2 < lst@.len() ==> lst@[j1] != lst@[j2],
                decreases self.entries@.len() - f,
            {
                let ghost fi = f as int;
                if f != e {
                    proof {
                        self.lemma_entry_at(fi);
                    }
                    let hit = coords_intersect(&self.entries[e].1, &self.entries[f].1);
                    if hit {
                        let jdx = self.entries[f].0;
                        proof {
                            assert(idx != jdx);
                            assert(self.crossing(idx, jdx));
                            if lst@.contains(jdx) {
                                let q = choose|q: int|
                                    0 <= q < f && (#[trigger] self.entries@[q]).0 == jdx;
                                if q < fi {
                                    assert(self.entries@[q].0 != self.entries@[fi].0);
                                }
                            }
                            assert(!lst@.contains(jdx));
                        }
                        let ghost prev = lst@;
                        lst.push(jdx);
                        proof {
                            assert forall|j: EntryIndex| #[trigger]
                                lst@.contains(j) implies self.crossing(idx, j) && exists|q: int|
                                0 <= q < f + 1 && (#[trigger] self.entries@[q]).0 == j by {
                                let pj = choose|pj: int| 0 <= pj < lst@.len() && lst@[pj] == j;
                                if pj < prev.len() {
                                    assert(prev.contains(j));
                                    let q = choose|q: int|
                                        0 <= q < f && (#[trigger] self.entries@[q]).0 == j;
                                    assert(0 <= q < f + 1 && self.entries@[q].0 == j);
                                } else {
                                    assert(j == jdx);
                                    assert(self.entries@[fi].0 == j);
                                }
                            }
                            assert forall|q: int|
                                0 <= q < f + 1 && q != ei && self.crossing(
                                    idx,
                                    (#[trigger] self.entries@[q]).0,
                                ) implies lst@.contains(self.entries@[q].0) by {
                                if q < fi {
                                    assert(prev.contains(self.entries@[q].0));
                                    let pj = choose|pj: int|
                                        0 <= pj < prev.len() && prev[pj] == self.entries@[q].0;
                                    assert(lst@[pj] == self.entries@[q].0);
                                } else {
                                    assert(lst@[prev.len() as int] == jdx);
                                }
                            }
                        }
                    } else {
                        proof {
                            // No shared coordinate, so this entry does not
                            // cross; the characterization stays tight.
                            assert forall|q: int|
                                0 <= q < f + 1 && q != ei && self.crossing(
                                    idx,
                                    (#[trigger] self.entries@[q]).0,
                                ) implies lst@.contains(self.entries@[q].0) by {
                                if q == fi {
                                    let jdx = self.entries@[q].0;
                                    assert(self.entry_coords(jdx) == self.entries@[fi].1@);
                                    assert(false);
                                }
                            }
                        }
                    }
                } else {
                    proof {
                        assert forall|q: int|
                            0 <= q < f + 1 && q != ei && self.crossing(
                                idx,
                                (#[trigger] self.entries@[q]).0,
                            ) implies lst@.contains(self.entries@[q].0) by {}
                    }
                }
                f += 1;
            }
            proof {
                assert forall|j: EntryIndex|
                    #[trigger] self.crossing(idx, j) implies lst@.contains(j) by {
                    let q = choose|q: int|
                        0 <= q < self.entries@.len() && (#[trigger] self.entries@[q]).0 == j;
                    if q == ei {
                        assert(j == idx);
                    }
                }
            }
            perps.push((idx, lst));
            e += 1;
        }
        let ghost pre = *self;
        self.perpendicular_entries = perps;
        proof {
            Self::lemma_same_core(pre, *self);
            assert forall|p: int, j: EntryIndex|
                #![trigger self.perpendicular_entries@[p].1@.contains(j)]
                #![trigger self.crossing(self.entries@[p].0, j)]
                0 <= p < self.perpendicular_entries@.len() implies (
            self.perpendicular_entries@[p].1@.contains(j) <==> self.crossing(
                self.entries@[p].0,
                j,
            )) by {
                assert(pre.crossing(pre.entries@[p].0, j) == self.crossing(self.entries@[p].0, j));
            }
        }
    }

    /// The coordinates of a recorded entry are fillable, distinct, and at
    /// least three.
    proof fn lemma_entry_coords_ok(&self, idx: EntryIndex)
        requires
            self.wf(),
            self.has_entry(idx),
        ensures
            self.entry_coords(idx).len() >= 3,
            forall|p: int|
                0 <= p < self.entry_coords(idx).len() ==> self.white(
                    (#[trigger] self.entry_coords(idx)[p]).row as int,
                    self.entry_coords(idx)[p].col as int,
                ),
            forall|p1: int, p2: int|
                0 <= p1 < p2 < self.entry_coords(idx).len() ==> self.entry_coords(idx)[p1]
                    != self.entry_coords(idx)[p2],
    {
        let e = choose|e: int|
            0 <= e < self.entries@.len() && (#[trigger] self.entries@[e]).0 == idx;
        self.lemma_entry_at(e);
        assert(self.slot_ok(e));
        let (r, c) = choose|rr: int, cc: int| self.slot_is(e, rr, cc);
        let coords = self.entry_coords(idx);
        match idx.dir {
            EntryDir::Across => {
                assert(coords == self.across_coords(r, c));
                assert forall|p: int|
                    0 <= p < coords.len() implies self.white(
                    (#[trigger] coords[p]).row as int,
                    coords[p].col as int,
                ) by {
                    self.lemma_across_run_white(r, c, p);
                    assert(coords[p] == GridCoord { row: r as usize, col: (c + p) as usize });
                }
                assert forall|p1: int, p2: int|
                    0 <= p1 < p2 < coords.len() implies coords[p1] != coords[p2] by {
                    self.lemma_across_run_white(r, c, p1);
                    self.lemma_across_run_white(r, c, p2);
                    assert(coords[p1].col == c + p1);
                    assert(coords[p2].col == c + p2);
                }
            },
            EntryDir::Down => {
                assert(coords == self.down_coords(r, c));
                assert forall|p: int|
                    0 <= p < coords.len() implies self.white(
                    (#[trigger] coords[p]).row as int,
                    coords[p].col as int,
                ) by {
                    self.lemma_down_run_white(r, c, p);
                    assert(coords[p] == GridCoord { row: (r + p) as usize, col: c as usize });
                }
                assert forall|p1: int, p2: int|
                    0 <= p1 < p2 < coords.len() implies coords[p1] != coords[p2] by {
                    self.lemma_down_run_white(r, c, p1);
                    self.lemma_down_run_white(r, c, p2);
                    assert(coords[p1].row == r + p1);
                    assert(coords[p2].row == r + p2);
                }
            },
        }
    }

    // -- construction --------------------------------------------------------

    /// An all-fillable, empty grid of the given dimensions; none when either
    /// dimension is zero.
    pub fn new(width: usize, height: usize) -> (r: Option<Grid>)
        requires
            width * height < u32::MAX,
        ensures
            r is Some <==> width >= 1 && height >= 1,
            r matches Some(g) ==> {
                &&& g.wf()
                &&& g.spec_width() == width
                &&& g.spec_height() == height
                &&& forall|rr: int, cc: int|
                    0 <= rr < height && 0 <= cc < width ==> #[trigger] g.spec_cell(rr, cc)
                        == Cell::White(None::<Letter>)
            },
    {
        if width == 0 || height == 0 {
            return None;
        }
        let total = width * height;
        let mut cells: Vec<Cell> = Vec::new();
        let mut i: usize = 0;
        while i < total
            invariant
                i <= total,
                cells@.len() == i,
                forall|p: int| 0 <= p < i ==> cells@[p] == Cell::White(None::<Letter>),
            decreases total - i,
        {
            cells.push(Cell::White(None));
            i += 1;
        }
        let mut g = Grid {
            cells,
            entries: Vec::new(),
            perpendicular_entries: Vec::new(),
            width,
            height,
        };
        g.rebuild();
        proof {
            assert forall|rr: int, cc: int|
                0 <= rr < height && 0 <= cc < width implies #[trigger] g.spec_cell(rr, cc)
                == Cell::White(None::<Letter>) by {
                g.lemma_lin_bound(rr, cc);
            }
        }
        Some(g)
    }

    /// A grid whose cells are taken from the given list, truncated or padded
    /// with empty fillable cells to fit the dimensions; none when either
    /// dimension is zero.
    pub fn from_cells(cells: &[Cell], width: usize, height: usize) -> (r: Option<Grid>)
        requires
            width * height < u32::MAX,
        ensures
            r is Some <==> width >= 1 && height >= 1,
            r matches Some(g) ==> {
                &&& g.wf()
                &&& g.spec_width() == width
                &&& g.spec_height() == height
                &&& forall|rr: int, cc: int|
                    0 <= rr < height && 0 <= cc < width ==> #[trigger] g.spec_cell(rr, cc)
                        == padded_cell(cells@, rr * width + cc)
            },
    {
        if width == 0 || height == 0 {
            return None;
        }
        let total = width * height;
        let mut v: Vec<Cell> = Vec::new();
        let mut i: usize = 0;
        while i < total
            invariant
                i <= total,
                v@.len() == i,
                forall|p: int| 0 <= p < i ==> #[trigger] v@[p] == padded_cell(cells@, p),
            decreases total - i,
        {
            if i < cells.len() {
                v.push(cells[i]);
            } else {
                v.push(Cell::White(None));
            }
            i += 1;
        }
        let mut g = Grid {
            cells: v,
            entries: Vec::new(),
            perpendicular_entries: Vec::new(),
            width,
            height,
        };
        g.rebuild();
        proof {
            assert forall|rr: int, cc: int|
                0 <= rr < height && 0 <= cc < width implies #[trigger] g.spec_cell(rr, cc)
                == padded_cell(cells@, rr * width + cc) by {
                g.lemma_lin_bound(rr, cc);
            }
        }
        Some(g)
    }

    // -- reading the grid ----------------------------------------------------

    /// The grid width.
    pub fn width(&self) -> (r: usize)
        ensures
            r == self.spec_width(),
    {
        self.width
    }

    /// The grid height.
    pub fn height(&self) -> (r: usize)
        ensures
            r == self.spec_height(),
    {
        self.height
    }

    /// The cell at the coordinate, or none when the coordinate lies outside
    /// the grid.
    pub fn get_cell(&self, coord: GridCoord) -> (r: Option<Cell>)
        requires
            self.wf(),
        ensures
            r == if coord.row < self.spec_height() && coord.col < self.spec_width() {
                Some(self.spec_cell(coord.row as int, coord.col as int))
            } else {
                None::<Cell>
            },
    {
        if coord.row < self.height && coord.col < self.width {
            let i = self.idx_of(coord.row, coord.col);
            Some(self.cells[i])
        } else {
            None
        }
    }

    /// Writes a cell at the coordinate; out-of-range writes change nothing.
    /// A write that changes a cell between blocked and fillable recomputes
    /// the entry topology; a write of letters leaves it untouched.
    pub fn set_cell(&mut self, coord: GridCoord, val: Cell)
        requires
            old(self).wf(),
        ensures
            final(self).wf(),
            final(self).spec_width() == old(self).spec_width(),
            final(self).spec_height() == old(self).spec_height(),
            coord.row < old(self).spec_height() && coord.col < old(self).spec_width() ==> {
                &&& final(self).spec_cell(coord.row as int, coord.col as int) == val
                &&& forall|r: int, c: int|
                    0 <= r < old(self).spec_height() && 0 <= c < old(self).spec_width() && !(r
                        == coord.row && c == coord.col) ==> #[trigger] final(self).spec_cell(r, c)
                        == old(self).spec_cell(r, c)
                &&& cell_white(val) == cell_white(
                    old(self).spec_cell(coord.row as int, coord.col as int),
                ) ==> {
                    &&& forall|idx: EntryIndex| #[trigger]
                        final(self).has_entry(idx) == old(self).has_entry(idx)
                    &&& forall|idx: EntryIndex| #[trigger]
                        old(self).has_entry(idx) ==> final(self).entry_coords(idx) == old(
                            self,
                        ).entry_coords(idx)
                    &&& forall|a: EntryIndex, b: EntryIndex| #[trigger]
                        final(self).crossing(a, b) == old(self).crossing(a, b)
                }
            },
            !(coord.row < old(self).spec_height() && coord.col < old(self).spec_width())
                ==> *final(self) == *old(self),
    {
        if coord.row < self.height && coord.col < self.width {
            let i = self.idx_of(coord.row, coord.col);
            let was = self.cells[i].is_white();
            let now = val.is_white();
            let ghost pre = *self;
            self.cells.set(i, val);
            proof {
                assert forall|r: int, c: int|
                    0 <= r < pre.spec_height() && 0 <= c < pre.spec_width() && !(r == coord.row
                        && c == coord.col) implies #[trigger] self.spec_cell(r, c) == pre.spec_cell(
                    r,
                    c,
                ) by {
                    pre.lemma_lin_bound(r, c);
                    if r * pre.spec_width() + c == i {
                        pre.lemma_lin_injective(r, c, coord.row as int, coord.col as int);
                    }
                }
            }
            if was != now {
                self.rebuild();
                proof {
                    assert forall|r: int, c: int|
                        0 <= r < pre.spec_height() && 0 <= c < pre.spec_width() && !(r == coord.row
                            && c == coord.col) implies #[trigger] self.spec_cell(r, c)
                        == pre.spec_cell(r, c) by {
                        pre.lemma_lin_bound(r, c);
                        if r * pre.spec_width() + c == i {
                            pre.lemma_lin_injective(r, c, coord.row as int, coord.col as int);
                        }
                    }
                    assert(self.spec_cell(coord.row as int, coord.col as int) == val);
                }
            } else {
                proof {
                    assert forall|r: int, c: int|
                        pre.white(r, c) == self.white(r, c) by {
                        if 0 <= r < pre.spec_height() && 0 <= c < pre.spec_width() {
                            if r == coord.row && c == coord.col {
                            } else {
                                assert(self.spec_cell(r, c) == pre.spec_cell(r, c));
                            }
                        }
                    }
                    Self::lemma_same_structure(pre, *self);
                }
            }
        }
    }

    // -- writing letters into a slot -----------------------------------------

    /// Writes one optional letter into a fillable cell; everything derived
    /// from the fillable mask and entry list is untouched.
    fn put_letter(&mut self, rr: usize, cc: usize, l: Option<Letter>)
        requires
            old(self).wf(),
            old(self).white(rr as int, cc as int),
        ensures
            final(self).wf(),
            final(self).spec_width() == old(self).spec_width(),
            final(self).spec_height() == old(self).spec_height(),
            final(self).spec_cell(rr as int, cc as int) == Cell::White(l),
            forall|r: int, c: int|
                0 <= r < old(self).spec_height() && 0 <= c < old(self).spec_width() && !(r == rr
                    && c == cc) ==> #[trigger] final(self).spec_cell(r, c) == old(self).spec_cell(
                    r,
                    c,
                ),
            forall|r: int, c: int| #[trigger]
                final(self).white(r, c) == old(self).white(r, c),
            forall|idx: EntryIndex| #[trigger]
                final(self).has_entry(idx) == old(self).has_entry(idx),
            forall|idx: EntryIndex| #[trigger]
                old(self).has_entry(idx) ==> final(self).entry_coords(idx) == old(
                    self,
                ).entry_coords(idx),
            forall|a: EntryIndex, b: EntryIndex| #[trigger]
                final(self).crossing(a, b) == old(self).crossing(a, b),
    {
        let i = self.idx_of(rr, cc);
        let ghost pre = *self;
        self.cells.set(i, Cell::White(l));
        proof {
            assert forall|r: int, c: int|
                0 <= r < pre.spec_height() && 0 <= c < pre.spec_width() && !(r == rr && c
                    == cc) implies #[trigger] self.spec_cell(r, c) == pre.spec_cell(r, c) by {
                pre.lemma_lin_bound(r, c);
                if r * pre.spec_width() + c == i {
                    pre.lemma_lin_injective(r, c, rr as int, cc as int);
                }
            }
            assert forall|r: int, c: int| pre.white(r, c) == self.white(r, c) by {
                if 0 <= r < pre.spec_height() && 0 <= c < pre.spec_width() {
                    if r == rr && c == cc {
                    } else {
                        assert(self.spec_cell(r, c) == pre.spec_cell(r, c));
                    }
                }
            }
            Self::lemma_same_structure(pre, *self);
        }
    }

    // -- reading and writing entries -----------------------------------------

    /// Whether the entry exists and every one of its cells holds a letter.
    pub closed spec fn entry_filled(&self, idx: EntryIndex) -> bool {
        &&& self.has_entry(idx)
        &&& forall|p: int|
            0 <= p < self.entry_letters(idx).len() ==> (#[trigger] self.entry_letters(idx)[p])
                is Some
    }

    /// Whether every fillable cell of the grid holds a letter.
    pub closed spec fn grid_filled(&self) -> bool {
        forall|r: int, c: int|
            0 <= r < self.spec_height() && 0 <= c < self.spec_width() ==> (!cell_white(
                #[trigger] self.spec_cell(r, c),
            ) || cell_letter(self.spec_cell(r, c)) is Some)
    }

    /// The number of recorded entries.
    pub closed spec fn entry_count(&self) -> nat {
        self.entries@.len()
    }

    /// Whether some recorded entry currently holds exactly these letters.
    pub closed spec fn is_entry_content(&self, letters: Seq<Option<Letter>>) -> bool {
        exists|idx: EntryIndex| self.has_entry(idx) && letters == self.entry_letters(idx)
    }

    /// The recorded position of the index, if any.
    fn find_entry(&self, index: EntryIndex) -> (r: Option<usize>)
        ensures
            r matches Some(e) ==> e < self.entries@.len() && self.entries@[e as int].0 == index,
            r is Some <==> self.has_entry(index),
    {
        let mut e: usize = 0;
        while e < self.entries.len()
            invariant
                e <= self.entries@.len(),
                forall|p: int| 0 <= p < e ==> (#[trigger] self.entries@[p]).0 != index,
            decreases self.entries@.len() - e,
        {
            if self.entries[e].0 == index {
                proof {
                    assert(self.has_entry(index));
                }
                return Some(e);
            }
            e += 1;
        }
        proof {
            if self.has_entry(index) {
                let w = choose|p: int|
                    0 <= p < self.entries@.len() && (#[trigger] self.entries@[p]).0 == index;
            }
        }
        None
    }

    /// The coordinates of the entry with this index, in scan order.
    pub fn get_entry_coords(&self, index: EntryIndex) -> (r: Option<Vec<GridCoord>>)
        requires
            self.wf(),
        ensures
            r is Some <==> self.has_entry(index),
            r matches Some(v) ==> v@ == self.entry_coords(index),
    {
        match self.find_entry(index) {
            Some(e) => {
                proof {
                    self.lemma_entry_at(e as int);
                }
                Some(copy_vec(&self.entries[e].1))
            },
            None => None,
        }
    }

    /// The current contents of the entry with this index.
    pub fn get_entry(&self, index: EntryIndex) -> (r: Option<Entry>)
        requires
            self.wf(),
        ensures
            r is Some <==> self.has_entry(index),
            r matches Some(en) ==> en@ == self.entry_letters(index),
    {
        match self.find_entry(index) {
            Some(e) => {
                proof {
                    self.lemma_entry_at(e as int);
                    self.lemma_entry_coords_ok(index);
                }
                let coords = &self.entries[e].1;
                let ghost gcoords = self.entry_coords(index);
                let mut letters: Vec<Option<Letter>> = Vec::new();
                let mut p: usize = 0;
                while p < coords.len()
                    invariant
                        self.wf(),
                        p <= coords@.len(),
                        e < self.entries@.len(),
                        coords@ == self.entries@[e as int].1@,
                        gcoords == self.entry_coords(index),
                        gcoords == coords@,
                        forall|q: int|
                            0 <= q < gcoords.len() ==> self.white(
                                (#[trigger] gcoords[q]).row as int,
                                gcoords[q].col as int,
                            ),
                        letters@.len() == p,
                        forall|q: int|
                            0 <= q < p ==> #[trigger] letters@[q] == self.letter_at(
                                gcoords[q].row as int,
                                gcoords[q].col as int,
                            ),
                    decreases coords@.len() - p,
                {
                    let co = coords[p];
                    let i = self.idx_of(co.row, co.col);
                    let cell = self.cells[i];
                    let l = match cell {
                        Cell::White(l) => l,
                        Cell::Black => None,
                    };
                    letters.push(l);
                    p += 1;
                }
                proof {
                    assert(letters@ =~= self.entry_letters(index));
                }
                Some(Entry::new(letters))
            },
            None => None,
        }
    }

    /// Overwrites a slot position by position with the given contents,
    /// stopping at the shorter of the two; unknown indices change nothing.
    pub fn set_entry(&mut self, index: EntryIndex, entry: &Entry)
        requires
            old(self).wf(),
        ensures
            final(self).wf(),
            final(self).spec_width() == old(self).spec_width(),
            final(self).spec_height() == old(self).spec_height(),
            forall|idx: EntryIndex| #[trigger]
                final(self).has_entry(idx) == old(self).has_entry(idx),
            forall|idx: EntryIndex| #[trigger]
                old(self).has_entry(idx) ==> final(self).entry_coords(idx) == old(
                    self,
                ).entry_coords(idx),
            forall|a: EntryIndex, b: EntryIndex| #[trigger]
                final(self).crossing(a, b) == old(self).crossing(a, b),
            forall|r: int, c: int| #[trigger]
                final(self).white(r, c) == old(self).white(r, c),
            !old(self).has_entry(index) ==> forall|r: int, c: int|
                0 <= r < old(self).spec_height() && 0 <= c < old(self).spec_width()
                    ==> #[trigger] final(self).spec_cell(r, c) == old(self).spec_cell(r, c),
            old(self).has_entry(index) ==> ({
                let coords = old(self).entry_coords(index);
                let n = min_len(coords.len() as int, entry@.len() as int);
                &&& forall|q: int|
                    0 <= q < n ==> #[trigger] final(self).letter_at(
                        coords[q].row as int,
                        coords[q].col as int,
                    ) == entry@[q]
                &&& forall|r: int, c: int|
                    0 <= r < old(self).spec_height() && 0 <= c < old(self).spec_width()
                        && !writes_upto(coords, n, r, c)
                        ==> #[trigger] final(self).spec_cell(r, c) == old(self).spec_cell(r, c)
            }),
    {
        match self.find_entry(index) {
            Some(e) => {
                proof {
                    self.lemma_entry_at(e as int);
                    self.lemma_entry_coords_ok(index);
                }
                let coords = copy_vec(&self.entries[e].1);
                let ghost gcoords = old(self).entry_coords(index);
                let n = if coords.len() <= entry.letters.len() {
                    coords.len()
                } else {
                    entry.letters.len()
                };
                let mut q: usize = 0;
                while q < n
                    invariant
                        self.wf(),
                        q <= n,
                        n <= coords@.len(),
                        n <= entry@.len(),
                        n == min_len(gcoords.len() as int, entry@.len() as int),
                        coords@ == gcoords,
                        self.spec_width() == old(self).spec_width(),
                        self.spec_height() == old(self).spec_height(),
                        forall|p1: int, p2: int|
                            0 <= p1 < p2 < gcoords.len() ==> gcoords[p1] != gcoords[p2],
                        forall|p: int|
                            0 <= p < gcoords.len() ==> old(self).white(
                                (#[trigger] gcoords[p]).row as int,
                                gcoords[p].col as int,
                            ),
                        forall|idx: EntryIndex| #[trigger]
                            self.has_entry(idx) == old(self).has_entry(idx),
                        forall|idx: EntryIndex| #[trigger]
                            old(self).has_entry(idx) ==> self.entry_coords(idx) == old(
                                self,
                            ).entry_coords(idx),
                        forall|a: EntryIndex, b: EntryIndex| #[trigger]
                            self.crossing(a, b) == old(self).crossing(a, b),
                        forall|r: int, c: int| #[trigger]
                            self.white(r, c) == old(self).white(r, c),
                        forall|p: int|
                            0 <= p < q ==> #[trigger] self.letter_at(
                                gcoords[p].row as int,
                                gcoords[p].col as int,
                            ) == entry@[p],
                        forall|r: int, c: int|
                            0 <= r < old(self).spec_height() && 0 <= c < old(self).spec_width()
                                && !writes_upto(gcoords, q as int, r, c) ==> #[trigger] self
                                .spec_cell(r, c) == old(self).spec_cell(r, c),
                    decreases n - q,
                {
                    let co = coords[q];
                    let ghost mid = *self;
                    self.put_letter(co.row, co.col, entry.letters[q]);
                    proof {
                        assert forall|idx: EntryIndex| #[trigger]
                            self.has_entry(idx) == old(self).has_entry(idx) by {
                            assert(mid.has_entry(idx) == old(self).has_entry(idx));
                            assert(self.has_entry(idx) == mid.has_entry(idx));
                        }
                        assert forall|idx: EntryIndex| #[trigger]
                            old(self).has_entry(idx) implies self.entry_coords(idx) == old(
                            self,
                        ).entry_coords(idx) by {
                            assert(mid.has_entry(idx) == old(self).has_entry(idx));
                            assert(mid.entry_coords(idx) == old(self).entry_coords(idx));
                            assert(self.entry_coords(idx) == mid.entry_coords(idx));
                        }
                        assert forall|a: EntryIndex, b: EntryIndex| #[trigger]
                            self.crossing(a, b) == old(self).crossing(a, b) by {
                            assert(mid.crossing(a, b) == old(self).crossing(a, b));
                            assert(self.crossing(a, b) == mid.crossing(a, b));
                        }
                        assert forall|r: int, c: int| #[trigger]
                            self.white(r, c) == old(self).white(r, c) by {
                            assert(mid.white(r, c) == old(self).white(r, c));
                            assert(self.white(r, c) == mid.white(r, c));
                        }
                        assert forall|p: int|
                            0 <= p < q + 1 implies #[trigger] self.letter_at(
                            gcoords[p].row as int,
                            gcoords[p].col as int,
                        ) == entry@[p] by {
                            if p < q {
                                assert(mid.letter_at(gcoords[p].row as int, gcoords[p].col as int)
                                    == entry@[p]);
                                assert(gcoords[p] != gcoords[q as int]);
                                assert(old(self).white(
                                    gcoords[p].row as int,
                                    gcoords[p].col as int,
                                ));
                                assert(self.spec_cell(gcoords[p].row as int, gcoords[p].col as int)
                                    == mid.spec_cell(gcoords[p].row as int, gcoords[p].col as int));
                            } else {
                                assert(self.spec_cell(gcoords[p].row as int, gcoords[p].col as int)
                                    == Cell::White(entry@[p]));
                            }
                        }
                        assert forall|r: int, c: int|
                            0 <= r < old(self).spec_height() && 0 <= c < old(self).spec_width()
                                && !writes_upto(gcoords, q + 1, r, c) implies #[trigger] self
                            .spec_cell(r, c) == old(self).spec_cell(r, c) by {
                            assert(!writes_upto(gcoords, q as int, r, c));
                            assert(mid.spec_cell(r, c) == old(self).spec_cell(r, c));
                            assert(!(r == gcoords[q as int].row && c == gcoords[q as int].col));
                            assert(self.spec_cell(r, c) == mid.spec_cell(r, c));
                        }
                    }
                    q += 1;
                }
            },
            None => {},
        }
    }

    /// Fills a slot with the letters of a word, position by position,
    /// stopping at the shorter of the two; unknown indices change nothing.
    pub fn fill_entry(&mut self, index: EntryIndex, word: &Word)
        requires
            old(self).wf(),
        ensures
            final(self).wf(),
            final(self).spec_width() == old(self).spec_width(),
            final(self).spec_height() == old(self).spec_height(),
            forall|idx: EntryIndex| #[trigger]
                final(self).has_entry(idx) == old(self).has_entry(idx),
            forall|idx: EntryIndex| #[trigger]
                old(self).has_entry(idx) ==> final(self).entry_coords(idx) == old(
                    self,
                ).entry_coords(idx),
            forall|a: EntryIndex, b: EntryIndex| #[trigger]
                final(self).crossing(a, b) == old(self).crossing(a, b),
            forall|r: int, c: int| #[trigger]
                final(self).white(r, c) == old(self).white(r, c),
            !old(self).has_entry(index) ==> forall|r: int, c: int|
                0 <= r < old(self).spec_height() && 0 <= c < old(self).spec_width()
                    ==> #[trigger] final(self).spec_cell(r, c) == old(self).spec_cell(r, c),
            old(self).has_entry(index) ==> ({
                let coords = old(self).entry_coords(index);
                let n = min_len(coords.len() as int, word@.len() as int);
                &&& forall|q: int|
                    0 <= q < n ==> #[trigger] final(self).letter_at(
                        coords[q].row as int,
                        coords[q].col as int,
                    ) == Some(word@[q])
                &&& forall|r: int, c: int|
                    0 <= r < old(self).spec_height() && 0 <= c < old(self).spec_width()
                        && !writes_upto(coords, n, r, c)
                        ==> #[trigger] final(self).spec_cell(r, c) == old(self).spec_cell(r, c)
            }),
    {
        let mut masks: Vec<Option<Letter>> = Vec::new();
        let mut i: usize = 0;
        while i < word.letters.len()
            invariant
                i <= word@.len(),
                masks@.len() == i,
                forall|p: int| 0 <= p < i ==> #[trigger] masks@[p] == Some(word@[p]),
            decreases word@.len() - i,
        {
            masks.push(Some(word.letters[i]));
            i += 1;
        }
        let entry = Entry::new(masks);
        proof {
            if old(self).has_entry(index) {
                let coords = old(self).entry_coords(index);
                assert(min_len(coords.len() as int, entry@.len() as int) == min_len(
                    coords.len() as int,
                    word@.len() as int,
                ));
            }
        }
        self.set_entry(index, &entry);
    }

    /// Blanks every cell of a slot; unknown indices change nothing.
    pub fn clear_entry(&mut self, index: EntryIndex)
        requires
            old(self).wf(),
        ensures
            final(self).wf(),
            final(self).spec_width() == old(self).spec_width(),
            final(self).spec_height() == old(self).spec_height(),
            forall|idx: EntryIndex| #[trigger]
                final(self).has_entry(idx) == old(self).has_entry(idx),
            forall|idx: EntryIndex| #[trigger]
                old(self).has_entry(idx) ==> final(self).entry_coords(idx) == old(
                    self,
                ).entry_coords(idx),
            forall|a: EntryIndex, b: EntryIndex| #[trigger]
                final(self).crossing(a, b) == old(self).crossing(a, b),
            forall|r: int, c: int| #[trigger]
                final(self).white(r, c) == old(self).white(r, c),
            !old(self).has_entry(index) ==> forall|r: int, c: int|
                0 <= r < old(self).spec_height() && 0 <= c < old(self).spec_width()
                    ==> #[trigger] final(self).spec_cell(r, c) == old(self).spec_cell(r, c),
            old(self).has_entry(index) ==> ({
                let coords = old(self).entry_coords(index);
                &&& forall|q: int|
                    0 <= q < coords.len() ==> #[trigger] final(self).letter_at(
                        coords[q].row as int,
                        coords[q].col as int,
                    ) is None
                &&& forall|r: int, c: int|
                    0 <= r < old(self).spec_height() && 0 <= c < old(self).spec_width()
                        && !writes_upto(coords, coords.len() as int, r, c)
                        ==> #[trigger] final(self).spec_cell(r, c) == old(self).spec_cell(r, c)
            }),
    {
        match self.get_entry_coords(index) {
            Some(coords) => {
                let mut masks: Vec<Option<Letter>> = Vec::new();
                let mut i: usize = 0;
                while i < coords.len()
                    invariant
                        i <= coords@.len(),
                        masks@.len() == i,
                        forall|p: int| 0 <= p < i ==> #[trigger] masks@[p] is None,
                    decreases coords@.len() - i,
                {
                    masks.push(None);
                    i += 1;
                }
                let entry = Entry::new(masks);
                self.set_entry(index, &entry);
                proof {
                    let gcoords = old(self).entry_coords(index);
                    assert(min_len(gcoords.len() as int, entry@.len() as int)
                        == gcoords.len() as int);
                }
            },
            None => {},
        }
    }

    /// The indices of every entry crossing the given one; unknown indices
    /// yield an empty list.
    pub fn entries_perp_to(&self, index: EntryIndex) -> (r: Vec<EntryIndex>)
        requires
            self.wf(),
        ensures
            forall|j: EntryIndex| #[trigger] r@.contains(j) <==> self.crossing(index, j),
            forall|j1: int, j2: int| 0 <= j1 < j2 < r@.len() ==> r@[j1] != r@[j2],
            !self.has_entry(index) ==> r@.len() == 0,
    {
        let mut e: usize = 0;
        while e < self.perpendicular_entries.len()
            invariant
                self.wf(),
                e <= self.perpendicular_entries@.len(),
                forall|p: int|
                    0 <= p < e ==> (#[trigger] self.perpendicular_entries@[p]).0 != index,
            decreases self.perpendicular_entries@.len() - e,
        {
            if self.perpendicular_entries[e].0 == index {
                proof {
                    assert(self.entries@[e as int].0 == index);
                }
                return copy_vec(&self.perpendicular_entries[e].1);
            }
            e += 1;
        }
        proof {
            assert forall|j: EntryIndex| !self.crossing(index, j) by {
                if self.has_entry(index) {
                    let p = choose|p: int|
                        0 <= p < self.entries@.len() && (#[trigger] self.entries@[p]).0 == index;
                    assert(self.perpendicular_entries@[p].0 == self.entries@[p].0);
                }
            }
            assert(!self.has_entry(index)) by {
                if self.has_entry(index) {
                    let p = choose|p: int|
                        0 <= p < self.entries@.len() && (#[trigger] self.entries@[p]).0 == index;
                    assert(self.perpendicular_entries@[p].0 == self.entries@[p].0);
                }
            }
        }
        Vec::new()
    }

    /// Whether the entry exists and is completely filled.
    pub fn is_entry_filled(&self, index: EntryIndex) -> (r: bool)
        requires
            self.wf(),
        ensures
            r == self.entry_filled(index),
    {
        match self.get_entry(index) {
            Some(en) => {
                let mut p: usize = 0;
                while p < en.letters.len()
                    invariant
                        p <= en@.len(),
                        en@ == self.entry_letters(index),
                        self.has_entry(index),
                        forall|q: int| 0 <= q < p ==> (#[trigger] en@[q]) is Some,
                    decreases en@.len() - p,
                {
                    if en.letters[p].is_none() {
                        return false;
                    }
                    p += 1;
                }
                true
            },
            None => false,
        }
    }

    /// Whether every fillable cell in the grid holds a letter.
    pub fn is_filled(&self) -> (r: bool)
        requires
            self.wf(),
        ensures
            r == self.grid_filled(),
    {
        let mut rr: usize = 0;
        while rr < self.height
            invariant
                self.wf(),
                rr <= self.spec_height(),
                forall|r: int, c: int|
                    0 <= r < rr && 0 <= c < self.spec_width() ==> (!cell_white(
                        #[trigger] self.spec_cell(r, c),
                    ) || cell_letter(self.spec_cell(r, c)) is Some),
            decreases self.spec_height() - rr,
        {
            let mut cc: usize = 0;
            while cc < self.width
                invariant
                    self.wf(),
                    rr < self.spec_height(),
                    cc <= self.spec_width(),
                    forall|r: int, c: int|
                        0 <= r < rr && 0 <= c < self.spec_width() ==> (!cell_white(
                            #[trigger] self.spec_cell(r, c),
                        ) || cell_letter(self.spec_cell(r, c)) is Some),
                    forall|c: int|
                        0 <= c < cc ==> (!cell_white(#[trigger] self.spec_cell(rr as int, c))
                            || cell_letter(self.spec_cell(rr as int, c)) is Some),
                decreases self.spec_width() - cc,
            {
                let i = self.idx_of(rr, cc);
                let keep = match self.cells[i] {
                    Cell::Black => true,
                    Cell::White(Some(_)) => true,
                    Cell::White(None) => false,
                };
                if !keep {
                    proof {
                        assert(cell_white(self.spec_cell(rr as int, cc as int)));
                        assert(cell_letter(self.spec_cell(rr as int, cc as int)) is None);
                    }
                    return false;
                }
                cc += 1;
            }
            rr += 1;
        }
        true
    }

    /// Every entry index in the grid, each once, in recording order.
    pub fn entry_indices(&self) -> (r: Vec<EntryIndex>)
        requires
            self.wf(),
        ensures
            r@.len() == self.entry_count(),
            forall|j: EntryIndex| #[trigger] r@.contains(j) <==> self.has_entry(j),
            forall|j1: int, j2: int| 0 <= j1 < j2 < r@.len() ==> r@[j1] != r@[j2],
    {
        let mut r: Vec<EntryIndex> = Vec::new();
        let mut e: usize = 0;
        while e < self.entries.len()
            invariant
                self.wf(),
                e <= self.entries@.len(),
                r@.len() == e,
                forall|p: int| 0 <= p < e ==> #[trigger] r@[p] == self.entries@[p].0,
            decreases self.entries@.len() - e,
        {
            r.push(self.entries[e].0);
            e += 1;
        }
        proof {
            assert forall|j: EntryIndex| #[trigger] r@.contains(j) <==> self.has_entry(j) by {
                if r@.contains(j) {
                    let p = choose|p: int| 0 <= p < r@.len() && r@[p] == j;
                    assert(self.entries@[p].0 == j);
                    assert(self.has_entry(j));
                }
                if self.has_entry(j) {
                    let p = choose|p: int|
                        0 <= p < self.entries@.len() && (#[trigger] self.entries@[p]).0 == j;
                    assert(r@[p] == j);
                }
            }
        }
        r
    }

    /// The current contents of every entry, in recording order.
    pub fn entries(&self) -> (r: Vec<Entry>)
        requires
            self.wf(),
        ensures
            r@.len() == self.entry_count(),
            forall|p: int| 0 <= p < r@.len() ==> self.is_entry_content((#[trigger] r@[p])@),
    {
        let mut r: Vec<Entry> = Vec::new();
        let mut e: usize = 0;
        while e < self.entries.len()
            invariant
                self.wf(),
                e <= self.entries@.len(),
                r@.len() == e,
                forall|p: int| 0 <= p < e ==> self.is_entry_content((#[trigger] r@[p])@),
            decreases self.entries@.len() - e,
        {
            let idx = self.entries[e].0;
            proof {
                self.lemma_entry_at(e as int);
            }
            let ghost prev = r@;
            match self.get_entry(idx) {
                Some(en) => {
                    r.push(en);
                    proof {
                        assert forall|p: int|
                            0 <= p < r@.len() implies self.is_entry_content(
                            (#[trigger] r@[p])@,
                        ) by {
                            if p < prev.len() {
                                assert(r@[p] == prev[p]);
                                assert(self.is_entry_content(prev[p]@));
                            } else {
                                assert(r@[p]@ == self.entry_letters(idx));
                            }
                        }
                    }
                },
                None => {
                    proof {
                        assert(false);
                    }
                },
            }
            e += 1;
        }
        r
    }

    /// The rows of the grid, top to bottom, each left to right.
    pub fn rows(&self) -> (r: Vec<Vec<Cell>>)
        requires
            self.wf(),
        ensures
            r@.len() == self.spec_height(),
            forall|i: int| 0 <= i < r@.len() ==> (#[trigger] r@[i])@.len() == self.spec_width(),
            forall|i: int, j: int|
                #![trigger r@[i]@[j]]
                0 <= i < self.spec_height() && 0 <= j < self.spec_width() ==> r@[i]@[j]
                    == self.spec_cell(i, j),
    {
        let mut r: Vec<Vec<Cell>> = Vec::new();
        let mut rr: usize = 0;
        while rr < self.height
            invariant
                self.wf(),
                rr <= self.spec_height(),
                r@.len() == rr,
                forall|i: int| 0 <= i < rr ==> (#[trigger] r@[i])@.len() == self.spec_width(),
                forall|i: int, j: int|
                    #![trigger r@[i]@[j]]
                    0 <= i < rr && 0 <= j < self.spec_width() ==> r@[i]@[j] == self.spec_cell(i, j),
            decreases self.spec_height() - rr,
        {
            let mut row: Vec<Cell> = Vec::new();
            let mut cc: usize = 0;
            while cc < self.width
                invariant
                    self.wf(),
                    rr < self.spec_height(),
                    cc <= self.spec_width(),
                    row@.len() == cc,
                    forall|j: int| 0 <= j < cc ==> #[trigger] row@[j] == self.spec_cell(
                        rr as int,
                        j,
                    ),
                decreases self.spec_width() - cc,
            {
                let i = self.idx_of(rr, cc);
                row.push(self.cells[i]);
                cc += 1;
            }
            r.push(row);
            rr += 1;
        }
        r
    }

    /// The columns of the grid, left to right, each top to bottom.
    pub fn cols(&self) -> (r: Vec<Vec<Cell>>)
        requires
            self.wf(),
        ensures
            r@.len() == self.spec_width(),
            forall|i: int| 0 <= i < r@.len() ==> (#[trigger] r@[i])@.len() == self.spec_height(),
            forall|i: int, j: int|
                #![trigger r@[i]@[j]]
                0 <= i < self.spec_width() && 0 <= j < self.spec_height() ==> r@[i]@[j]
                    == self.spec_cell(j, i),
    {
        let mut r: Vec<Vec<Cell>> = Vec::new();
        let mut cc: usize = 0;
        while cc < self.width
            invariant
                self.wf(),
                cc <= self.spec_width(),
                r@.len() == cc,
                forall|i: int| 0 <= i < cc ==> (#[trigger] r@[i])@.len() == self.spec_height(),
                forall|i: int, j: int|
                    #![trigger r@[i]@[j]]
                    0 <= i < cc && 0 <= j < self.spec_height() ==> r@[i]@[j] == self.spec_cell(
                        j,
                        i,
                    ),
            decreases self.spec_width() - cc,
        {
            let mut col: Vec<Cell> = Vec::new();
            let mut rr: usize = 0;
            while rr < self.height
                invariant
                    self.wf(),
                    cc < self.spec_width(),
                    rr <= self.spec_height(),
                    col@.len() == rr,
                    forall|j: int| 0 <= j < rr ==> #[trigger] col@[j] == self.spec_cell(
                        j,
                        cc as int,
                    ),
                decreases self.spec_height() - rr,
            {
                let i = self.idx_of(rr, cc);
                col.push(self.cells[i]);
                rr += 1;
            }
            r.push(col);
            cc += 1;
        }
        r
    }

    /// The textual picture of the grid: one line per row, a hash for a
    /// blocked cell, a space for an empty fillable cell, the letter for a
    /// filled one.
    pub fn render(&self) -> (r: String)
        requires
            self.wf(),
        ensures
            r@.len() == self.spec_height() * (self.spec_width() + 1),
            forall|rr: int, cc: int|
                #![trigger r@[rr * (self.spec_width() + 1) + cc]]
                0 <= rr < self.spec_height() && 0 <= cc < self.spec_width() ==> r@[rr * (
                self.spec_width() + 1) + cc] == rendered_cell(self.spec_cell(rr, cc)),
            forall|rr: int|
                0 <= rr < self.spec_height() ==> #[trigger] r@[rr * (self.spec_width() + 1)
                    + self.spec_width()] == '\n',
    {
        let ghost w = self.spec_width();
        let mut cs: Vec<char> = Vec::new();
        let mut rr: usize = 0;
        while rr < self.height
            invariant
                self.wf(),
                w == self.spec_width(),
                rr <= self.spec_height(),
                cs@.len() == rr * (w + 1),
                forall|r: int, c: int|
                    #![trigger cs@[r * (w + 1) + c]]
                    0 <= r < rr && 0 <= c < w ==> cs@[r * (w + 1) + c] == rendered_cell(
                        self.spec_cell(r, c),
                    ),
                forall|r: int| 0 <= r < rr ==> #[trigger] cs@[r * (w + 1) + w] == '\n',
            decreases self.spec_height() - rr,
        {
            let ghost base = rr * (w + 1);
            let mut cc: usize = 0;
            while cc < self.width
                invariant
                    self.wf(),
                    w == self.spec_width(),
                    rr < self.spec_height(),
                    cc <= w,
                    base == rr * (w + 1),
                    cs@.len() == base + cc,
                    forall|r: int, c: int|
                        #![trigger cs@[r * (w + 1) + c]]
                        0 <= r < rr && 0 <= c < w ==> cs@[r * (w + 1) + c] == rendered_cell(
                            self.spec_cell(r, c),
                        ),
                    forall|r: int| 0 <= r < rr ==> #[trigger] cs@[r * (w + 1) + w] == '\n',
                    forall|c: int|
                        #![trigger cs@[base + c]]
                        0 <= c < cc ==> cs@[base + c] == rendered_cell(
                            self.spec_cell(rr as int, c),
                        ),
                decreases w - cc,
            {
                let i = self.idx_of(rr, cc);
                let ch = match self.cells[i] {
                    Cell::Black => '#',
                    Cell::White(None) => ' ',
                    Cell::White(Some(l)) => l.to_char(),
                };
                cs.push(ch);
                proof {
                    assert forall|r: int, c: int|
                        #![trigger cs@[r * (w + 1) + c]]
                        0 <= r < rr && 0 <= c < w implies cs@[r * (w + 1) + c] == rendered_cell(
                        self.spec_cell(r, c),
                    ) by {
                        assert(r * (w + 1) + c < base) by (nonlinear_arith)
                            requires
                                0 <= r,
                                r < rr,
                                0 <= c < w + 1,
                                base == rr * (w + 1),
                        ;
                    }
                    assert forall|r: int|
                        0 <= r < rr implies #[trigger] cs@[r * (w + 1) + w] == '\n' by {
                        assert(r * (w + 1) + w < base) by (nonlinear_arith)
                            requires
                                0 <= r,
                                r < rr,
                                0 <= w,
                                base == rr * (w + 1),
                        ;
                    }
                }
                cc += 1;
            }
            cs.push('\n');
            proof {
                assert((rr + 1) * (w + 1) == rr * (w + 1) + (w + 1)) by (nonlinear_arith);
                assert forall|r: int, c: int|
                    #![trigger cs@[r * (w + 1) + c]]
                    0 <= r < rr + 1 && 0 <= c < w implies cs@[r * (w + 1) + c] == rendered_cell(
                    self.spec_cell(r, c),
                ) by {
                    if r < rr {
                        assert(r * (w + 1) + c < rr * (w + 1)) by (nonlinear_arith)
                            requires
                                0 <= r < rr,
                                0 <= c < w + 1,
                        ;
                        assert(cs@[r * (w + 1) + c] == rendered_cell(self.spec_cell(r, c)));
                    } else {
                        assert(cs@[base + c] == rendered_cell(self.spec_cell(rr as int, c)));
                    }
                }
                assert forall|r: int|
                    0 <= r < rr + 1 implies #[trigger] cs@[r * (w + 1) + w] == '\n' by {
                    if r < rr {
                        assert(r * (w + 1) + w < rr * (w + 1)) by (nonlinear_arith)
                            requires
                                0 <= r < rr,
                                0 <= w,
                        ;
                    } else {
                        assert(cs@[base + w] == '\n');
                    }
                }
            }
            rr += 1;
        }
        chars_to_string(cs)
    }

    /// A slot whose coordinates avoid every written coordinate keeps its
    /// contents across a write.
    proof fn lemma_untouched_letters(g0: Grid, g1: Grid, j: EntryIndex, written: Seq<GridCoord>, n: int)
        requires
            g0.wf(),
            g0.has_entry(j),
            g1.spec_width() == g0.spec_width(),
            g1.spec_height() == g0.spec_height(),
            g1.entry_coords(j) == g0.entry_coords(j),
            forall|r: int, c: int|
                0 <= r < g0.spec_height() && 0 <= c < g0.spec_width() && !writes_upto(
                    written,
                    n,
                    r,
                    c,
                ) ==> #[trigger] g1.spec_cell(r, c) == g0.spec_cell(r, c),
            forall|p: int, q: int|
                0 <= p < g0.entry_coords(j).len() && 0 <= q < n ==> (
                #[trigger] g0.entry_coords(j)[p]) != (#[trigger] written[q]),
        ensures
            g1.entry_letters(j) == g0.entry_letters(j),
    {
        g0.lemma_entry_coords_ok(j);
        let coords = g0.entry_coords(j);
        assert forall|p: int|
            0 <= p < coords.len() implies g1.letter_at(
            (#[trigger] coords[p]).row as int,
            coords[p].col as int,
        ) == g0.letter_at(coords[p].row as int, coords[p].col as int) by {
            let r = coords[p].row as int;
            let c = coords[p].col as int;
            assert(g0.white(r, c));
            assert(!writes_upto(written, n, r, c)) by {
                if writes_upto(written, n, r, c) {
                    let q = choose|q: int|
                        0 <= q < n && (#[trigger] written[q]).row == r && written[q].col == c;
                    assert(written[q] == coords[p]);
                }
            }
            assert(g1.spec_cell(r, c) == g0.spec_cell(r, c));
        }
        assert(g1.entry_letters(j) =~= g0.entry_letters(j));
    }

    /// Two grids with the same topology and the same cells on every in-range
    /// coordinate give every slot the same contents.
    proof fn lemma_equal_cells_letters(g0: Grid, g1: Grid, j: EntryIndex)
        requires
            g0.wf(),
            g0.has_entry(j),
            g1.spec_width() == g0.spec_width(),
            g1.spec_height() == g0.spec_height(),
            g1.entry_coords(j) == g0.entry_coords(j),
            forall|r: int, c: int|
                0 <= r < g0.spec_height() && 0 <= c < g0.spec_width() ==> #[trigger] g1.spec_cell(
                    r,
                    c,
                ) == g0.spec_cell(r, c),
        ensures
            g1.entry_letters(j) == g0.entry_letters(j),
    {
        Self::lemma_untouched_letters(g0, g1, j, Seq::empty(), 0);
    }

    /// The unique recorded position of an index, under key uniqueness.
    proof fn lemma_entry_at(&self, e: int)
        requires
            self.keys_unique(),
            0 <= e < self.entries@.len(),
        ensures
            self.has_entry(self.entries@[e].0),
            self.entry_coords(self.entries@[e].0) == self.entries@[e].1@,
    {
        let idx = self.entries@[e].0;
        assert(self.has_entry(idx));
        let e2 = choose|e2: int|
            0 <= e2 < self.entries@.len() && (#[trigger] self.entries@[e2]).0 == idx;
        if e2 != e {
            if e < e2 {
                assert(self.entries@[e].0 != self.entries@[e2].0);
            } else {
                assert(self.entries@[e2].0 != self.entries@[e].0);
            }
        }
    }
}

/// The smaller of two lengths.
pub open spec fn min_len(a: int, b: int) -> int {
    if a <= b {
        a
    } else {
        b
    }
}

/// Whether one of the first n coordinates addresses (r, c).
pub open spec fn writes_upto(coords: Seq<GridCoord>, n: int, r: int, c: int) -> bool {
    exists|p: int| 0 <= p < n && (#[trigger] coords[p]).row == r && coords[p].col == c
}

/// The character a cell is rendered as.
pub open spec fn rendered_cell(c: Cell) -> char {
    match c {
        Cell::Black => '#',
        Cell::White(None) => ' ',
        Cell::White(Some(l)) => l.0 as char,
    }
}

/// A copy of a vector of copyable values.
fn copy_vec<T: Copy>(v: &Vec<T>) -> (r: Vec<T>)
    ensures
        r@ == v@,
{
    let mut r: Vec<T> = Vec::new();
    let mut i: usize = 0;
    while i < v.len()
        invariant
            i <= v@.len(),
            r@ == v@.take(i as int),
        decreases v@.len() - i,
    {
        r.push(v[i]);
        proof {
            assert(r@ =~= v@.take(i + 1));
        }
        i += 1;
    }
    proof {
        assert(v@.take(v@.len() as int) =~= v@);
    }
    r
}

/// The cell a padded/truncated source list supplies for position p.
pub open spec fn padded_cell(cells: Seq<Cell>, p: int) -> Cell {
    if 0 <= p < cells.len() {
        cells[p]
    } else {
        Cell::White(None)
    }
}

// ---------------------------------------------------------------------------
// The backtracking solver.
// ---------------------------------------------------------------------------

/// The candidate list stored for an index, scanning front to back.
pub open spec fn pf_get(s: Seq<(EntryIndex, Vec<Word>)>, idx: EntryIndex) -> Option<Seq<Word>>
    decreases s.len(),
{
    if s.len() == 0 {
        None
    } else if s[0].0 == idx {
        Some(s[0].1@)
    } else {
        pf_get(s.drop_first(), idx)
    }
}

/// The word spelled by a completely filled slot's contents.
pub open spec fn word_of(letters: Seq<Option<Letter>>) -> Seq<Letter> {
    letters.map_values(|m: Option<Letter>| m->0)
}

/// The lowest score the ranked search accepts in a candidate.
pub const RANK_THRESHOLD: i32 = 40;

/// A solver that fills a grid's entries with distinct-slot dictionary words
/// by randomized, bounded-width, most-constrained-first backtracking.
pub struct GridSolver<T: UnrankedDict> {
    grid: Grid,
    dict: T,
    added_words: Vec<Word>,
    unfilled_entries: Vec<EntryIndex>,
    possible_fills: Vec<(EntryIndex, Vec<Word>)>,
    changes: Vec<(EntryIndex, Word, Entry)>,
}

impl<T: UnrankedDict> GridSolver<T> {
    // -- the solver state, seen from specifications --------------------------

    /// The grid being filled.
    pub closed spec fn spec_grid(&self) -> Grid {
        self.grid
    }

    /// The words the dictionary holds.
    pub closed spec fn dict_words(&self) -> Set<Seq<Letter>> {
        self.dict.word_set()
    }

    /// The dictionary value itself; the solver never changes it.
    pub closed spec fn spec_dict(&self) -> T {
        self.dict
    }

    /// The set of entries not yet filled in this attempt.
    pub closed spec fn unfilled(&self) -> Set<EntryIndex> {
        Set::new(
            |idx: EntryIndex|
                exists|i: int|
                    0 <= i < self.unfilled_entries@.len() && (
                    #[trigger] self.unfilled_entries@[i]) == idx,
        )
    }

    /// Whether a word has been recorded as placed.
    pub closed spec fn added(&self) -> Set<Seq<Letter>> {
        Set::new(
            |s: Seq<Letter>|
                exists|i: int|
                    0 <= i < self.added_words@.len() && (#[trigger] self.added_words@[i])@ == s,
        )
    }

    /// The undo log: for each fill, in order, the index filled, the word
    /// placed, and the slot contents it overwrote.
    pub closed spec fn changes_view(&self) -> Seq<(EntryIndex, Seq<Letter>, Seq<Option<Letter>>)> {
        self.changes@.map_values(|t: (EntryIndex, Word, Entry)| (t.0, t.1@, t.2@))
    }

    /// The number of fills not yet undone.
    pub closed spec fn change_count(&self) -> nat {
        self.changes@.len()
    }

    /// Whether the stored candidate list for this index is sound: every
    /// candidate is a dictionary word fitting the slot's current pattern.
    spec fn list_ok(&self, idx: EntryIndex) -> bool {
        match pf_get(self.possible_fills@, idx) {
            Some(lst) => forall|p: int|
                0 <= p < lst.len() ==> self.dict.word_set().contains((#[trigger] lst[p])@)
                    && spec_matches(self.grid.entry_letters(idx), lst[p]@),
            None => false,
        }
    }

    /// The candidate list currently stored for an index, if any.
    pub closed spec fn candidates(&self, idx: EntryIndex) -> Option<Seq<Word>> {
        pf_get(self.possible_fills@, idx)
    }

    /// Whether the stored candidate list for this index holds exactly the
    /// words of the given set that fit the slot's current letters: every
    /// candidate belongs to the set and fits, and every fitting member of
    /// the set is a candidate.
    pub closed spec fn candidates_exact(&self, ws: Set<Seq<Letter>>, idx: EntryIndex) -> bool {
        match pf_get(self.possible_fills@, idx) {
            Some(lst) => {
                &&& forall|p: int|
                    0 <= p < lst.len() ==> ws.contains((#[trigger] lst[p])@) && spec_matches(
                        self.grid.entry_letters(idx),
                        lst[p]@,
                    )
                &&& forall|w: Seq<Letter>|
                    #[trigger] ws.contains(w) && spec_matches(self.grid.entry_letters(idx), w)
                        ==> exists|p: int| 0 <= p < lst.len() && (#[trigger] lst[p])@ == w
            },
            None => false,
        }
    }

    /// Whether every unfilled slot's candidate list holds exactly the
    /// fitting words of the given set.
    pub closed spec fn lists_fresh(&self, ws: Set<Seq<Letter>>) -> bool {
        forall|i: int|
            0 <= i < self.unfilled_entries@.len() ==> self.candidates_exact(
                ws,
                #[trigger] self.unfilled_entries@[i],
            )
    }

    /// The solver's internal well-formedness.
    pub closed spec fn wf(&self) -> bool {
        &&& self.grid.wf()
        &&& self.dict.wf()
        &&& forall|i1: int, i2: int|
            0 <= i1 < i2 < self.unfilled_entries@.len() ==> (
            #[trigger] self.unfilled_entries@[i1]) != (#[trigger] self.unfilled_entries@[i2])
        &&& forall|i: int|
            0 <= i < self.unfilled_entries@.len() ==> self.grid.has_entry(
                #[trigger] self.unfilled_entries@[i],
            ) && self.list_ok(self.unfilled_entries@[i])
        &&& forall|k: int|
            0 <= k < self.changes@.len() ==> self.grid.has_entry(
                (#[trigger] self.changes@[k]).0,
            ) && self.changes@[k].2@.len() == self.grid.entry_coords(self.changes@[k].0).len()
        &&& forall|i1: int, i2: int|
            0 <= i1 < i2 < self.added_words@.len() ==> (#[trigger] self.added_words@[i1])@ != (
            #[trigger] self.added_words@[i2])@
    }

    /// Whether every entry outside the unfilled set is completely filled.
    pub closed spec fn settled(&self) -> bool {
        forall|idx: EntryIndex|
            self.spec_grid().has_entry(idx) && !self.unfilled().contains(idx)
                ==> #[trigger] self.spec_grid().entry_filled(idx)
    }

    /// Whether a word is recorded as pre-seeded content of a filled entry.
    pub closed spec fn seeded_word(g: Grid, s: Seq<Letter>) -> bool {
        exists|idx: EntryIndex|
            g.has_entry(idx) && g.entry_filled(idx) && s == word_of(#[trigger] g.entry_letters(idx))
    }

    // -- construction ---------------------------------------------------------

    /// A solver owning the given grid and dictionary.  Entries already
    /// completely filled have their words recorded as placed; every other
    /// entry starts unfilled, with its candidates looked up from the
    /// dictionary.
    pub fn new(grid: Grid, dict: T) -> (r: GridSolver<T>)
        requires
            grid.wf(),
            dict.wf(),
        ensures
            r.wf(),
            r.spec_grid() == grid,
            r.dict_words() == dict.word_set(),
            r.change_count() == 0,
            forall|idx: EntryIndex| #[trigger]
                r.unfilled().contains(idx) <==> grid.has_entry(idx) && !grid.entry_filled(idx),
            forall|s: Seq<Letter>| #[trigger] r.added().contains(s) <==> Self::seeded_word(grid, s),
            r.settled(),
            r.lists_fresh(dict.word_set()),
            forall|idx: EntryIndex| #[trigger]
                r.unfilled().contains(idx) ==> r.candidates_exact(dict.word_set(), idx),
    {
        let mut solver = GridSolver {
            grid,
            dict,
            added_words: Vec::new(),
            unfilled_entries: Vec::new(),
            possible_fills: Vec::new(),
            changes: Vec::new(),
        };
        proof {
            assert forall|s: Seq<Letter>| !solver.added().contains(s) by {
                if solver.added().contains(s) {
                    let i = choose|i: int|
                        0 <= i < solver.added_words@.len() && (#[trigger] solver.added_words@[i])@
                            == s;
                }
            }
            assert forall|idx: EntryIndex| !solver.unfilled().contains(idx) by {
                if solver.unfilled().contains(idx) {
                    let i = choose|i: int|
                        0 <= i < solver.unfilled_entries@.len() && (
                        #[trigger] solver.unfilled_entries@[i]) == idx;
                }
            }
        }
        let indices = solver.grid.entry_indices();
        let mut i: usize = 0;
        while i < indices.len()
            invariant
                solver.wf(),
                solver.spec_grid() == grid,
                solver.dict == dict,
                i <= indices@.len(),
                solver.changes@.len() == 0,
                forall|j1: int, j2: int|
                    0 <= j1 < j2 < indices@.len() ==> indices@[j1] != indices@[j2],
                forall|j: EntryIndex| #[trigger] indices@.contains(j) <==> grid.has_entry(j),
                forall|p: int|
                    0 <= p < solver.unfilled_entries@.len() ==> indices@.take(i as int).contains(
                        #[trigger] solver.unfilled_entries@[p],
                    ),
                forall|idx: EntryIndex| #[trigger]
                    solver.unfilled().contains(idx) ==> !grid.entry_filled(idx),
                forall|j: int|
                    0 <= j < i && !grid.entry_filled(#[trigger] indices@[j])
                        ==> solver.unfilled().contains(indices@[j]),
                forall|s: Seq<Letter>| #[trigger]
                    solver.added().contains(s) ==> Self::seeded_word(grid, s),
                forall|j: int|
                    0 <= j < i && grid.entry_filled(#[trigger] indices@[j])
                        ==> solver.added().contains(word_of(grid.entry_letters(indices@[j]))),
                forall|p2: int|
                    0 <= p2 < solver.unfilled_entries@.len() ==> solver.candidates_exact(
                        dict.word_set(),
                        #[trigger] solver.unfilled_entries@[p2],
                    ),
            decreases indices@.len() - i,
        {
            let idx = indices[i];
            proof {
                assert(indices@.contains(idx));
            }
            let ghost pre = solver;
            if solver.grid.is_entry_filled(idx) {
                let entry = match solver.grid.get_entry(idx) {
                    Some(en) => en,
                    None => {
                        proof {
                            assert(false);
                        }
                        Entry::new(Vec::new())
                    },
                };
                let mut letters: Vec<Letter> = Vec::new();
                let mut p: usize = 0;
                while p < entry.letters.len()
                    invariant
                        p <= entry@.len(),
                        entry@ == grid.entry_letters(idx),
                        grid.entry_filled(idx),
                        grid.has_entry(idx),
                        letters@.len() == p,
                        forall|q: int|
                            0 <= q < p ==> #[trigger] letters@[q] == entry@[q]->0,
                    decreases entry@.len() - p,
                {
                    match entry.letters[p] {
                        Some(l) => {
                            letters.push(l);
                        },
                        None => {
                            proof {
                                assert(entry@[p as int] is Some);
                                assert(false);
                            }
                        },
                    }
                    p += 1;
                }
                let word = Word { letters };
                proof {
                    assert(word@ =~= word_of(grid.entry_letters(idx)));
                }
                let mut seen = false;
                let mut q: usize = 0;
                while q < solver.added_words.len()
                    invariant
                        q <= solver.added_words@.len(),
                        seen ==> solver.added().contains(word@),
                        !seen ==> forall|j: int|
                            0 <= j < q ==> (#[trigger] solver.added_words@[j])@ != word@,
                    decreases solver.added_words@.len() - q,
                {
                    if &solver.added_words[q] == &word {
                        seen = true;
                        proof {
                            assert(solver.added_words@[q as int]@ == word@);
                        }
                    }
                    q += 1;
                }
                if !seen {
                    let ghost prev = solver.added_words@;
                    solver.added_words.push(word);
                    proof {
                        assert(solver.added_words@[prev.len() as int]@ =~= word_of(
                            grid.entry_letters(idx),
                        ));
                        assert forall|s2: Seq<Letter>| #[trigger]
                            solver.added().contains(s2) implies pre.added().contains(s2) || s2
                            == word_of(grid.entry_letters(idx)) by {
                            let j = choose|j: int|
                                0 <= j < solver.added_words@.len() && (
                                #[trigger] solver.added_words@[j])@ == s2;
                            if j < prev.len() {
                                assert(prev[j]@ == s2);
                            }
                        }
                        assert forall|s2: Seq<Letter>|
                            pre.added().contains(s2) implies solver.added().contains(s2) by {
                            let j = choose|j: int|
                                0 <= j < prev.len() && (#[trigger] prev[j])@ == s2;
                            assert(solver.added_words@[j]@ == s2);
                        }
                        assert forall|j1: int, j2: int|
                            0 <= j1 < j2 < solver.added_words@.len() implies (
                        #[trigger] solver.added_words@[j1])@ != (
                        #[trigger] solver.added_words@[j2])@ by {
                            if j2 == prev.len() {
                                assert(solver.added_words@[j1] == prev[j1]);
                                assert(prev[j1]@ != word_of(grid.entry_letters(idx)));
                            } else {
                                assert(solver.added_words@[j1] == prev[j1]);
                                assert(solver.added_words@[j2] == prev[j2]);
                            }
                        }
                    }
                }
                proof {
                    assert(Self::seeded_word(grid, word_of(grid.entry_letters(idx))));
                    assert(solver.added().contains(word_of(grid.entry_letters(idx)))) by {
                        if !seen {
                            let n = solver.added_words@.len();
                            assert(solver.added_words@[n - 1]@ == word_of(
                                grid.entry_letters(idx),
                            ));
                        }
                    }
                    assert(solver.unfilled_entries@ == pre.unfilled_entries@);
                    assert forall|p2: int|
                        0 <= p2 < solver.unfilled_entries@.len() implies indices@.take(
                        i + 1,
                    ).contains(#[trigger] solver.unfilled_entries@[p2]) by {
                        let u = solver.unfilled_entries@[p2];
                        assert(indices@.take(i as int).contains(u));
                        let j = choose|j: int|
                            0 <= j < indices@.take(i as int).len() && indices@.take(i as int)[j]
                                == u;
                        assert(indices@.take(i + 1)[j] == u);
                    }
                    assert forall|j: int|
                        0 <= j < i + 1 && !grid.entry_filled(
                            #[trigger] indices@[j],
                        ) implies solver.unfilled().contains(indices@[j]) by {
                        if j < i {
                            assert(pre.unfilled().contains(indices@[j]));
                            let p2 = choose|p2: int|
                                0 <= p2 < pre.unfilled_entries@.len() && (
                                #[trigger] pre.unfilled_entries@[p2]) == indices@[j];
                            assert(solver.unfilled_entries@[p2] == indices@[j]);
                        }
                    }
                    assert forall|idx2: EntryIndex| #[trigger]
                        solver.unfilled().contains(idx2) implies !grid.entry_filled(idx2) by {
                        let p2 = choose|p2: int|
                            0 <= p2 < solver.unfilled_entries@.len() && (
                            #[trigger] solver.unfilled_entries@[p2]) == idx2;
                        assert(pre.unfilled_entries@[p2] == idx2);
                        assert(pre.unfilled().contains(idx2));
                    }
                    assert forall|p2: int|
                        0 <= p2 < solver.unfilled_entries@.len() implies solver.candidates_exact(
                        dict.word_set(),
                        #[trigger] solver.unfilled_entries@[p2],
                    ) by {
                        let u = solver.unfilled_entries@[p2];
                        assert(pre.unfilled_entries@[p2] == u);
                        assert(pre.candidates_exact(dict.word_set(), u));
                        assert(solver.possible_fills@ == pre.possible_fills@);
                        assert(solver.grid == pre.grid);
                        assert(solver.candidates_exact(dict.word_set(), u)
                            == pre.candidates_exact(dict.word_set(), u));
                    }
                }
            } else {
                solver.update_possible_fills(idx);
                let ghost mid = solver;
                solver.unfilled_entries.push(idx);
                proof {
                    assert(!grid.entry_filled(idx));
                    let n = solver.unfilled_entries@.len();
                    assert(solver.unfilled_entries@[n - 1] == idx);
                    assert forall|p2: int|
                        0 <= p2 < n implies indices@.take(i + 1).contains(
                        #[trigger] solver.unfilled_entries@[p2],
                    ) by {
                        if p2 < n - 1 {
                            let u = solver.unfilled_entries@[p2];
                            assert(mid.unfilled_entries@[p2] == u);
                            assert(indices@.take(i as int).contains(u));
                            let j = choose|j: int|
                                0 <= j < indices@.take(i as int).len() && indices@.take(
                                    i as int,
                                )[j] == u;
                            assert(indices@.take(i + 1)[j] == u);
                        } else {
                            assert(indices@.take(i + 1)[i as int] == idx);
                        }
                    }
                    assert forall|j1: int, j2: int|
                        0 <= j1 < j2 < n implies (#[trigger] solver.unfilled_entries@[j1]) != (
                    #[trigger] solver.unfilled_entries@[j2]) by {
                        if j2 == n - 1 {
                            let u = solver.unfilled_entries@[j1];
                            assert(mid.unfilled_entries@[j1] == u);
                            assert(indices@.take(i as int).contains(u));
                            let j = choose|j: int|
                                0 <= j < indices@.take(i as int).len() && indices@.take(
                                    i as int,
                                )[j] == u;
                            assert(indices@[j] == u);
                            assert(indices@[j] != indices@[i as int]);
                        } else {
                            assert(mid.unfilled_entries@[j1] == solver.unfilled_entries@[j1]);
                            assert(mid.unfilled_entries@[j2] == solver.unfilled_entries@[j2]);
                        }
                    }
                    assert forall|j: int|
                        0 <= j < n implies solver.grid.has_entry(
                        #[trigger] solver.unfilled_entries@[j],
                    ) && solver.list_ok(solver.unfilled_entries@[j]) by {
                        let u = solver.unfilled_entries@[j];
                        if j < n - 1 {
                            assert(mid.unfilled_entries@[j] == u);
                            assert(pre.unfilled_entries@[j] == u);
                            assert(pre.grid.has_entry(u) && pre.list_ok(u));
                            assert(indices@.take(i as int).contains(u));
                            let jj = choose|jj: int|
                                0 <= jj < indices@.take(i as int).len() && indices@.take(
                                    i as int,
                                )[jj] == u;
                            assert(indices@[jj] == u);
                            assert(u != idx) by {
                                assert(indices@[jj] != indices@[i as int]);
                            }
                            assert(pf_get(mid.possible_fills@, u) == pf_get(
                                pre.possible_fills@,
                                u,
                            ));
                            assert(mid.grid == pre.grid && mid.dict == pre.dict);
                            assert(mid.list_ok(u) == pre.list_ok(u));
                            assert(solver.list_ok(u) == mid.list_ok(u));
                        } else {
                            assert(u == idx);
                            assert(mid.list_ok(idx));
                            assert(solver.list_ok(u) == mid.list_ok(u));
                        }
                    }
                    assert forall|p2: int|
                        0 <= p2 < n implies solver.candidates_exact(
                        dict.word_set(),
                        #[trigger] solver.unfilled_entries@[p2],
                    ) by {
                        let u = solver.unfilled_entries@[p2];
                        if p2 < n - 1 {
                            assert(mid.unfilled_entries@[p2] == u);
                            assert(pre.unfilled_entries@[p2] == u);
                            assert(pre.candidates_exact(dict.word_set(), u));
                            assert(indices@.take(i as int).contains(u));
                            let jj = choose|jj: int|
                                0 <= jj < indices@.take(i as int).len() && indices@.take(
                                    i as int,
                                )[jj] == u;
                            assert(indices@[jj] == u);
                            assert(u != idx) by {
                                assert(indices@[jj] != indices@[i as int]);
                            }
                            assert(pf_get(mid.possible_fills@, u) == pf_get(
                                pre.possible_fills@,
                                u,
                            ));
                            assert(mid.grid == pre.grid);
                            assert(mid.candidates_exact(dict.word_set(), u)
                                == pre.candidates_exact(dict.word_set(), u));
                            assert(solver.possible_fills@ == mid.possible_fills@);
                            assert(solver.grid == mid.grid);
                            assert(solver.candidates_exact(dict.word_set(), u)
                                == mid.candidates_exact(dict.word_set(), u));
                        } else {
                            assert(u == idx);
                            assert(mid.candidates_exact(dict.word_set(), idx));
                            assert(solver.possible_fills@ == mid.possible_fills@);
                            assert(solver.grid == mid.grid);
                            assert(solver.candidates_exact(dict.word_set(), u)
                                == mid.candidates_exact(dict.word_set(), u));
                        }
                    }
                    assert forall|idx2: EntryIndex| #[trigger]
                        solver.unfilled().contains(idx2) implies !grid.entry_filled(idx2) by {
                        let p2 = choose|p2: int|
                            0 <= p2 < solver.unfilled_entries@.len() && (
                            #[trigger] solver.unfilled_entries@[p2]) == idx2;
                        if p2 < n - 1 {
                            assert(pre.unfilled_entries@[p2] == idx2);
                            assert(pre.unfilled().contains(idx2));
                        } else {
                            assert(idx2 == idx);
                        }
                    }
                    assert forall|j: int|
                        0 <= j < i + 1 && !grid.entry_filled(
                            #[trigger] indices@[j],
                        ) implies solver.unfilled().contains(indices@[j]) by {
                        if j < i {
                            assert(mid.unfilled().contains(indices@[j]));
                            let p2 = choose|p2: int|
                                0 <= p2 < mid.unfilled_entries@.len() && (
                                #[trigger] mid.unfilled_entries@[p2]) == indices@[j];
                            assert(solver.unfilled_entries@[p2] == indices@[j]);
                        } else {
                            assert(solver.unfilled_entries@[n - 1] == idx);
                        }
                    }
                    assert forall|s2: Seq<Letter>| #[trigger]
                        solver.added().contains(s2) implies Self::seeded_word(grid, s2) by {
                        assert(solver.added_words@ == pre.added_words@);
                        let j = choose|j: int|
                            0 <= j < solver.added_words@.len() && (
                            #[trigger] solver.added_words@[j])@ == s2;
                        assert(pre.added_words@[j]@ == s2);
                        assert(pre.added().contains(s2));
                    }
                    assert forall|j: int|
                        0 <= j < i + 1 && grid.entry_filled(
                            #[trigger] indices@[j],
                        ) implies solver.added().contains(
                        word_of(grid.entry_letters(indices@[j])),
                    ) by {
                        if j < i {
                            assert(pre.added().contains(word_of(grid.entry_letters(indices@[j]))));
                            let p2 = choose|p2: int|
                                0 <= p2 < pre.added_words@.len() && (
                                #[trigger] pre.added_words@[p2])@ == word_of(
                                    grid.entry_letters(indices@[j]),
                                );
                            assert(solver.added_words@[p2]@ == word_of(
                                grid.entry_letters(indices@[j]),
                            ));
                        }
                    }
                }
            }
            i += 1;
        }
        proof {
            assert forall|idx: EntryIndex| #[trigger]
                solver.unfilled().contains(idx) <==> grid.has_entry(idx) && !grid.entry_filled(
                idx,
            ) by {
                if solver.unfilled().contains(idx) {
                    let p = choose|p: int|
                        0 <= p < solver.unfilled_entries@.len() && (
                        #[trigger] solver.unfilled_entries@[p]) == idx;
                    assert(solver.grid.has_entry(idx));
                }
                if grid.has_entry(idx) && !grid.entry_filled(idx) {
                    assert(indices@.contains(idx));
                    let j = choose|j: int| 0 <= j < indices@.len() && indices@[j] == idx;
                    assert(solver.unfilled().contains(indices@[j]));
                }
            }
            assert forall|s: Seq<Letter>| #[trigger]
                solver.added().contains(s) <==> Self::seeded_word(grid, s) by {
                if Self::seeded_word(grid, s) {
                    let idx = choose|idx: EntryIndex|
                        grid.has_entry(idx) && grid.entry_filled(idx) && s == word_of(
                            #[trigger] grid.entry_letters(idx),
                        );
                    assert(indices@.contains(idx));
                    let j = choose|j: int| 0 <= j < indices@.len() && indices@[j] == idx;
                    assert(solver.added().contains(word_of(grid.entry_letters(indices@[j]))));
                }
            }
            assert(solver.settled()) by {
                assert forall|idx: EntryIndex|
                    solver.spec_grid().has_entry(idx) && !solver.unfilled().contains(
                        idx,
                    ) implies #[trigger] solver.spec_grid().entry_filled(idx) by {}
            }
            assert(solver.lists_fresh(dict.word_set()));
            assert forall|idx: EntryIndex| #[trigger]
                solver.unfilled().contains(idx) implies solver.candidates_exact(
                dict.word_set(),
                idx,
            ) by {
                let p2 = choose|p2: int|
                    0 <= p2 < solver.unfilled_entries@.len() && (
                    #[trigger] solver.unfilled_entries@[p2]) == idx;
            }
        }
        solver
    }


    // -- candidate upkeep -----------------------------------------------------

    /// Recomputes the candidate list for an index from the dictionary and
    /// the slot's current pattern; unknown indices change nothing.
    fn update_possible_fills(&mut self, index: EntryIndex)
        requires
            old(self).grid.wf(),
            old(self).dict.wf(),
        ensures
            final(self).grid == old(self).grid,
            final(self).dict == old(self).dict,
            final(self).unfilled_entries@ == old(self).unfilled_entries@,
            final(self).added_words@ == old(self).added_words@,
            final(self).changes@ == old(self).changes@,
            old(self).grid.has_entry(index) ==> final(self).list_ok(index),
            old(self).grid.has_entry(index) ==> final(self).candidates_exact(
                old(self).dict.word_set(),
                index,
            ),
            !old(self).grid.has_entry(index) ==> final(self).possible_fills@ == old(
                self,
            ).possible_fills@,
            forall|j: EntryIndex|
                j != index ==> pf_get(final(self).possible_fills@, j) == pf_get(
                    old(self).possible_fills@,
                    j,
                ),
    {
        match self.grid.get_entry(index) {
            Some(entry) => {
                let pattern = Pattern::new(entry.letters.as_slice());
                let fills = self.dict.lookup(&pattern);
                let ghost pre = *self;
                pf_put(&mut self.possible_fills, index, fills);
                proof {
                    assert(self.grid == pre.grid && self.dict == pre.dict);
                    assert(self.list_ok(index)) by {
                        let lst = pf_get(self.possible_fills@, index)->0;
                        assert forall|p: int|
                            0 <= p < lst.len() implies self.dict.word_set().contains(
                            (#[trigger] lst[p])@,
                        ) && spec_matches(self.grid.entry_letters(index), lst[p]@) by {}
                    }
                    assert(self.candidates_exact(pre.dict.word_set(), index)) by {
                        let lst = pf_get(self.possible_fills@, index)->0;
                        assert forall|w: Seq<Letter>|
                            #[trigger] pre.dict.word_set().contains(w) && spec_matches(
                                self.grid.entry_letters(index),
                                w,
                            ) implies exists|p: int|
                            0 <= p < lst.len() && (#[trigger] lst[p])@ == w by {
                            assert(views_of(fills@).contains(w));
                            let p = choose|p: int|
                                0 <= p < views_of(fills@).len() && views_of(fills@)[p] == w;
                            assert(lst[p]@ == w);
                        }
                    }
                }
            },
            None => {},
        }
    }
}

/// Whether one grid keeps another's dimensions, entries, coordinates,
/// crossings and fillable mask: everything but the letters in cells.
pub open spec fn topology_preserved(g0: Grid, g1: Grid) -> bool {
    &&& g1.spec_width() == g0.spec_width()
    &&& g1.spec_height() == g0.spec_height()
    &&& forall|idx: EntryIndex| #[trigger] g1.has_entry(idx) == g0.has_entry(idx)
    &&& forall|idx: EntryIndex| #[trigger]
        g0.has_entry(idx) ==> g1.entry_coords(idx) == g0.entry_coords(idx)
    &&& forall|a: EntryIndex, b: EntryIndex| #[trigger] g1.crossing(a, b) == g0.crossing(a, b)
    &&& forall|r: int, c: int| #[trigger] g1.white(r, c) == g0.white(r, c)
}

impl<T: UnrankedDict> GridSolver<T> {
    /// What one fill does: the word is written into the slot, everything
    /// else in the grid stands, the slot leaves the unfilled set, the word
    /// joins the placed set, and the overwritten contents are logged.
    pub open spec fn fill_post(
        pre: GridSolver<T>,
        post: GridSolver<T>,
        index: EntryIndex,
        word: Word,
    ) -> bool {
        let g0 = pre.spec_grid();
        let g1 = post.spec_grid();
        let coords = g0.entry_coords(index);
        &&& topology_preserved(g0, g1)
        &&& forall|q: int|
            0 <= q < coords.len() ==> #[trigger] g1.letter_at(
                coords[q].row as int,
                coords[q].col as int,
            ) == Some(word@[q])
        &&& forall|r: int, c: int|
            0 <= r < g0.spec_height() && 0 <= c < g0.spec_width() && !writes_upto(
                coords,
                coords.len() as int,
                r,
                c,
            ) ==> #[trigger] g1.spec_cell(r, c) == g0.spec_cell(r, c)
        &&& post.unfilled() == pre.unfilled().remove(index)
        &&& post.unfilled_len() == pre.unfilled_len() - 1
        &&& post.added() == pre.added().insert(word@)
        &&& post.changes_view() == pre.changes_view().push(
            (index, word@, g0.entry_letters(index)),
        )
        &&& post.dict_words() == pre.dict_words()
    }

    /// What one undo does: the logged contents return to the slot,
    /// everything else in the grid stands, the slot rejoins the unfilled
    /// set, the logged word leaves the placed set, and the log shrinks.
    pub open spec fn undo_post(pre: GridSolver<T>, post: GridSolver<T>) -> bool {
        let t = pre.changes_view().last();
        let g0 = pre.spec_grid();
        let g1 = post.spec_grid();
        let coords = g0.entry_coords(t.0);
        &&& topology_preserved(g0, g1)
        &&& forall|q: int|
            0 <= q < coords.len() ==> #[trigger] g1.letter_at(
                coords[q].row as int,
                coords[q].col as int,
            ) == t.2[q]
        &&& forall|r: int, c: int|
            0 <= r < g0.spec_height() && 0 <= c < g0.spec_width() && !writes_upto(
                coords,
                coords.len() as int,
                r,
                c,
            ) ==> #[trigger] g1.spec_cell(r, c) == g0.spec_cell(r, c)
        &&& post.unfilled() == pre.unfilled().insert(t.0)
        &&& post.unfilled_len() == pre.unfilled_len() + (if pre.unfilled().contains(t.0) {
            0int
        } else {
            1int
        })
        &&& post.added() == pre.added().remove(t.1)
        &&& post.changes_view() == pre.changes_view().drop_last()
        &&& post.dict_words() == pre.dict_words()
        &&& t.2.len() == coords.len()
    }

    /// The number of entries in the unfilled list.
    pub closed spec fn unfilled_len(&self) -> nat {
        self.unfilled_entries@.len()
    }

    /// The stored position of the candidate list for an index.
    fn pf_find(&self, index: EntryIndex) -> (r: Option<usize>)
        ensures
            r matches Some(k) ==> k < self.possible_fills@.len()
                && self.possible_fills@[k as int].0 == index && pf_get(
                self.possible_fills@,
                index,
            ) == Some(self.possible_fills@[k as int].1@),
            r is None ==> pf_get(self.possible_fills@, index) is None,
    {
        let mut k: usize = 0;
        while k < self.possible_fills.len()
            invariant
                k <= self.possible_fills@.len(),
                forall|p: int| 0 <= p < k ==> (#[trigger] self.possible_fills@[p]).0 != index,
            decreases self.possible_fills@.len() - k,
        {
            if self.possible_fills[k].0 == index {
                proof {
                    lemma_pf_get_first(self.possible_fills@, index, k as int);
                }
                return Some(k);
            }
            k += 1;
        }
        proof {
            lemma_pf_get_absent(self.possible_fills@, index);
        }
        None
    }

    /// Fills an unfilled slot with a word of its length: logs the contents
    /// being overwritten, writes the word, marks the slot filled, records
    /// the word as placed, and recomputes the candidates of every crossing
    /// slot.
    pub fn fill(&mut self, index: EntryIndex, word: &Word)
        requires
            old(self).wf(),
            old(self).unfilled().contains(index),
            word@.len() == old(self).spec_grid().entry_coords(index).len(),
        ensures
            final(self).wf(),
            final(self).spec_dict() == old(self).spec_dict(),
            Self::fill_post(*old(self), *final(self), index, *word),
            old(self).settled() ==> final(self).settled(),
            spec_matches(old(self).spec_grid().entry_letters(index), word@) ==> forall|
                r: int,
                c: int,
            |
                0 <= r < old(self).spec_grid().spec_height() && 0 <= c < old(
                    self,
                ).spec_grid().spec_width() && old(self).spec_grid().letter_at(r, c) is Some
                    ==> #[trigger] final(self).spec_grid().letter_at(r, c) == old(
                    self,
                ).spec_grid().letter_at(r, c),
            forall|j: EntryIndex| #[trigger]
                final(self).spec_grid().crossing(index, j) ==> final(self).candidates_exact(
                    old(self).dict_words(),
                    j,
                ),
            forall|j: EntryIndex|
                !final(self).spec_grid().crossing(index, j) ==> #[trigger] final(self).candidates(
                    j,
                ) == old(self).candidates(j),
            old(self).lists_fresh(old(self).dict_words()) ==> final(self).lists_fresh(
                old(self).dict_words(),
            ),
    {
        proof {
            let p = choose|p: int|
                0 <= p < self.unfilled_entries@.len() && (#[trigger] self.unfilled_entries@[p])
                    == index;
            assert(self.grid.has_entry(index));
        }
        let ghost s0 = *self;
        let ghost g0 = self.grid;
        let ghost dws = self.dict.word_set();
        let ghost coords = g0.entry_coords(index);
        let prev = match self.grid.get_entry(index) {
            Some(en) => en,
            None => {
                proof {
                    assert(false);
                }
                Entry::new(Vec::new())
            },
        };
        let logged = word.clone();
        self.changes.push((index, logged, prev));
        self.grid.fill_entry(index, word);
        proof {
            assert(self.changes_view() =~= s0.changes_view().push(
                (index, word@, g0.entry_letters(index)),
            ));
            assert forall|q: int|
                0 <= q < coords.len() implies #[trigger] self.grid.letter_at(
                coords[q].row as int,
                coords[q].col as int,
            ) == Some(word@[q]) by {
                assert(min_len(coords.len() as int, word@.len() as int) == coords.len() as int);
            }
        }
        // The slot is now filled; drop it from the unfilled list.
        let ghost u0 = self.unfilled_entries@;
        let p = match find_index(&self.unfilled_entries, index) {
            Some(p) => p,
            None => {
                proof {
                    let j = choose|j: int|
                        0 <= j < u0.len() && (#[trigger] u0[j]) == index;
                    assert(false);
                }
                0
            },
        };
        self.unfilled_entries.remove(p);
        proof {
            assert forall|idx2: EntryIndex|
                self.unfilled().contains(idx2) == s0.unfilled().remove(index).contains(idx2) by {
                if self.unfilled().contains(idx2) {
                    let j = choose|j: int|
                        0 <= j < self.unfilled_entries@.len() && (
                        #[trigger] self.unfilled_entries@[j]) == idx2;
                    let oj = if j < p {
                        j
                    } else {
                        j + 1
                    };
                    assert(u0[oj] == idx2);
                    assert(s0.unfilled().contains(idx2));
                    assert(idx2 != index) by {
                        if oj != p {
                            assert(u0[oj] != u0[p as int]);
                        }
                    }
                }
                if s0.unfilled().remove(index).contains(idx2) {
                    let j = choose|j: int|
                        0 <= j < u0.len() && (#[trigger] u0[j]) == idx2;
                    assert(j != p);
                    let nj = if j < p {
                        j
                    } else {
                        j - 1
                    };
                    assert(self.unfilled_entries@[nj] == u0[j]);
                    assert(self.unfilled().contains(idx2));
                }
            }
            assert(self.unfilled() =~= s0.unfilled().remove(index));
        }
        // Record the word as placed.
        let mut seen = false;
        let mut q: usize = 0;
        while q < self.added_words.len()
            invariant
                q <= self.added_words@.len(),
                self.added_words@ == s0.added_words@,
                seen ==> self.added().contains(word@),
                !seen ==> forall|j: int|
                    0 <= j < q ==> (#[trigger] self.added_words@[j])@ != word@,
            decreases self.added_words@.len() - q,
        {
            if &self.added_words[q] == word {
                seen = true;
                proof {
                    assert(self.added_words@[q as int]@ == word@);
                }
            }
            q += 1;
        }
        let ghost a0 = self.added_words@;
        if !seen {
            self.added_words.push(word.clone());
        }
        proof {
            assert forall|s2: Seq<Letter>|
                self.added().contains(s2) == s0.added().insert(word@).contains(s2) by {
                if self.added().contains(s2) {
                    let j = choose|j: int|
                        0 <= j < self.added_words@.len() && (#[trigger] self.added_words@[j])@
                            == s2;
                    if j < a0.len() {
                        assert(a0[j]@ == s2);
                        assert(s0.added().contains(s2));
                    }
                }
                if s0.added().insert(word@).contains(s2) {
                    if s2 == word@ {
                        if seen {
                            assert(self.added().contains(word@));
                        } else {
                            assert(self.added_words@[a0.len() as int]@ == word@);
                        }
                    } else {
                        let j = choose|j: int|
                            0 <= j < s0.added_words@.len() && (#[trigger] s0.added_words@[j])@
                                == s2;
                        assert(self.added_words@[j]@ == s2);
                    }
                }
            }
            assert(self.added() =~= s0.added().insert(word@));
            assert forall|j1: int, j2: int|
                0 <= j1 < j2 < self.added_words@.len() implies (
            #[trigger] self.added_words@[j1])@ != (#[trigger] self.added_words@[j2])@ by {
                if j2 < a0.len() {
                    assert(a0[j1] == self.added_words@[j1]);
                    assert(a0[j2] == self.added_words@[j2]);
                } else if j2 == a0.len() {
                    assert(a0[j1] == self.added_words@[j1]);
                    assert(a0[j1]@ != word@);
                }
            }
        }
        // Crossing slots see new letters; recompute their candidates.
        let ghost mid = *self;
        let perps = self.grid.entries_perp_to(index);
        proof {
            assert forall|i: int|
                0 <= i < self.unfilled_entries@.len() implies self.list_ok(
                #[trigger] self.unfilled_entries@[i],
            ) || (exists|p2: int|
                0 <= p2 < perps@.len() && (#[trigger] perps@[p2])
                    == self.unfilled_entries@[i]) by {
                let u = self.unfilled_entries@[i];
                let oj = if i < p {
                    i
                } else {
                    i + 1
                };
                assert(u0[oj] == u);
                assert(s0.unfilled().contains(u));
                assert(s0.grid.has_entry(u) && s0.list_ok(u));
                assert(u != index) by {
                    assert(u0[p as int] == index);
                    if oj != p {
                        assert(u0[oj] != u0[p as int]);
                    }
                }
                if self.grid.crossing(index, u) {
                    assert(perps@.contains(u));
                    let p2 = choose|p2: int|
                        0 <= p2 < perps@.len() && perps@[p2] == u;
                    assert(0 <= p2 < perps@.len() && perps@[p2] == u);
                } else {
                    assert(!g0.crossing(index, u));
                    assert(min_len(coords.len() as int, word@.len() as int)
                        == coords.len() as int);
                    assert forall|p3: int, q3: int|
                        0 <= p3 < g0.entry_coords(u).len() && 0 <= q3
                            < coords.len() implies (#[trigger] g0.entry_coords(u)[p3]) != (
                    #[trigger] coords[q3]) by {
                        if g0.entry_coords(u)[p3] == coords[q3] {
                            assert(g0.crossing(index, u));
                        }
                    }
                    Grid::lemma_untouched_letters(
                        g0,
                        self.grid,
                        u,
                        coords,
                        coords.len() as int,
                    );
                    assert(self.grid.entry_letters(u) == g0.entry_letters(u));
                    assert(self.possible_fills@ == s0.possible_fills@);
                    assert(self.dict == s0.dict);
                    assert(self.list_ok(u) == s0.list_ok(u));
                }
            }
        }
        let mut t: usize = 0;
        while t < perps.len()
            invariant
                t <= perps@.len(),
                self.grid == mid.grid,
                self.dict == mid.dict,
                self.unfilled_entries@ == mid.unfilled_entries@,
                self.added_words@ == mid.added_words@,
                self.changes@ == mid.changes@,
                self.grid.wf(),
                self.dict.wf(),
                mid.wf_except_lists(),
                dws == self.dict.word_set(),
                mid.possible_fills@ == s0.possible_fills@,
                forall|j: EntryIndex| #[trigger] perps@.contains(j) <==> mid.grid.crossing(
                    index,
                    j,
                ),
                forall|j1: int, j2: int|
                    0 <= j1 < j2 < perps@.len() ==> (#[trigger] perps@[j1]) != (
                    #[trigger] perps@[j2]),
                forall|i: int|
                    0 <= i < self.unfilled_entries@.len() ==> self.list_ok(
                        #[trigger] self.unfilled_entries@[i],
                    ) || (exists|p2: int|
                        t <= p2 < perps@.len() && (#[trigger] perps@[p2])
                            == self.unfilled_entries@[i]),
                forall|p2: int|
                    0 <= p2 < t ==> self.candidates_exact(dws, #[trigger] perps@[p2]),
                forall|j: EntryIndex|
                    (forall|p2: int| 0 <= p2 < t ==> (#[trigger] perps@[p2]) != j)
                        ==> #[trigger] self.candidates(j) == mid.candidates(j),
            decreases perps@.len() - t,
        {
            let jdx = perps[t];
            proof {
                assert(perps@[t as int] == jdx);
                assert(perps@.contains(jdx));
            }
            let ghost before = *self;
            self.update_possible_fills(jdx);
            proof {
                assert forall|i: int|
                    0 <= i < self.unfilled_entries@.len() implies self.list_ok(
                    #[trigger] self.unfilled_entries@[i],
                ) || (exists|p2: int|
                    t + 1 <= p2 < perps@.len() && (#[trigger] perps@[p2])
                        == self.unfilled_entries@[i]) by {
                    let u = self.unfilled_entries@[i];
                    if before.list_ok(u) {
                        if u == jdx {
                            assert(self.grid.has_entry(jdx));
                            assert(self.list_ok(jdx));
                        } else {
                            assert(pf_get(self.possible_fills@, u) == pf_get(
                                before.possible_fills@,
                                u,
                            ));
                            assert(self.list_ok(u) == before.list_ok(u));
                        }
                    } else {
                        let p2 = choose|p2: int|
                            t <= p2 < perps@.len() && (#[trigger] perps@[p2]) == u;
                        if p2 == t {
                            assert(u == jdx);
                            assert(self.grid.has_entry(jdx)) by {
                                assert(mid.grid.crossing(index, jdx));
                            }
                            assert(self.list_ok(jdx));
                        } else {
                            if u == jdx {
                                assert(self.grid.has_entry(jdx)) by {
                                    assert(mid.grid.crossing(index, jdx));
                                }
                                assert(self.list_ok(jdx));
                            } else {
                                assert(pf_get(self.possible_fills@, u) == pf_get(
                                    before.possible_fills@,
                                    u,
                                ));
                                assert(self.list_ok(u) == before.list_ok(u));
                            }
                        }
                    }
                }
                assert(self.grid.has_entry(jdx)) by {
                    assert(mid.grid.crossing(index, jdx));
                }
                assert forall|p2: int|
                    0 <= p2 < t + 1 implies self.candidates_exact(
                    dws,
                    #[trigger] perps@[p2],
                ) by {
                    if p2 < t {
                        assert(perps@[p2] != jdx);
                        assert(pf_get(self.possible_fills@, perps@[p2]) == pf_get(
                            before.possible_fills@,
                            perps@[p2],
                        ));
                        assert(self.candidates_exact(dws, perps@[p2]) == before.candidates_exact(
                            dws,
                            perps@[p2],
                        ));
                    } else {
                        assert(self.candidates_exact(dws, jdx));
                    }
                }
                assert forall|j: EntryIndex|
                    (forall|p2: int| 0 <= p2 < t + 1 ==> (#[trigger] perps@[p2]) != j)
                        implies #[trigger] self.candidates(j) == mid.candidates(j) by {
                    assert(perps@[t as int] != j);
                    assert(pf_get(self.possible_fills@, j) == pf_get(
                        before.possible_fills@,
                        j,
                    ));
                    assert(before.candidates(j) == mid.candidates(j));
                }
            }
            t += 1;
        }
        proof {
            assert forall|i: int|
                0 <= i < self.unfilled_entries@.len() implies self.grid.has_entry(
                #[trigger] self.unfilled_entries@[i],
            ) && self.list_ok(self.unfilled_entries@[i]) by {
                let u = self.unfilled_entries@[i];
                assert(mid.unfilled_entries@[i] == u);
                assert(s0.unfilled().contains(u)) by {
                    let oj = if i < p {
                        i
                    } else {
                        i + 1
                    };
                    assert(u0[oj] == u);
                }
                assert(self.grid.has_entry(u));
            }
            assert(self.wf());
            assert(Self::fill_post(s0, *self, index, *word)) by {
                assert(self.unfilled() =~= s0.unfilled().remove(index));
                assert(self.added() =~= s0.added().insert(word@));
            }
            // Crossing slots now hold exact lookups; every other list is
            // untouched, so freshness carries over.
            assert forall|j: EntryIndex| #[trigger]
                self.grid.crossing(index, j) implies self.candidates_exact(dws, j) by {
                assert(perps@.contains(j));
                let p2 = choose|p2: int| 0 <= p2 < perps@.len() && perps@[p2] == j;
            }
            assert forall|j: EntryIndex|
                !self.grid.crossing(index, j) implies #[trigger] self.candidates(j)
                == s0.candidates(j) by {
                assert forall|p2: int| 0 <= p2 < perps@.len() implies (#[trigger] perps@[p2])
                    != j by {
                    if perps@[p2] == j {
                        assert(perps@.contains(j));
                    }
                }
                assert(self.candidates(j) == mid.candidates(j));
                assert(mid.candidates(j) == s0.candidates(j));
            }
            if s0.lists_fresh(dws) {
                assert forall|i: int|
                    0 <= i < self.unfilled_entries@.len() implies self.candidates_exact(
                    dws,
                    #[trigger] self.unfilled_entries@[i],
                ) by {
                    let u = self.unfilled_entries@[i];
                    let oj = if i < p {
                        i
                    } else {
                        i + 1
                    };
                    assert(u0[oj] == u);
                    assert(s0.unfilled_entries@[oj] == u);
                    assert(s0.candidates_exact(dws, u));
                    assert(u != index) by {
                        assert(u0[p as int] == index);
                        if oj != p {
                            assert(u0[oj] != u0[p as int]);
                        }
                    }
                    if self.grid.crossing(index, u) {
                        assert(self.candidates_exact(dws, u));
                    } else {
                        assert(self.candidates(u) == s0.candidates(u));
                        assert(!g0.crossing(index, u));
                        assert(s0.grid.has_entry(u));
                        assert forall|p3: int, q3: int|
                            0 <= p3 < g0.entry_coords(u).len() && 0 <= q3
                                < coords.len() implies (#[trigger] g0.entry_coords(u)[p3]) != (
                        #[trigger] coords[q3]) by {
                            if g0.entry_coords(u)[p3] == coords[q3] {
                                assert(g0.crossing(index, u));
                            }
                        }
                        Grid::lemma_untouched_letters(
                            g0,
                            self.grid,
                            u,
                            coords,
                            coords.len() as int,
                        );
                        assert(self.grid.entry_letters(u) == g0.entry_letters(u));
                        assert(self.candidates_exact(dws, u) == s0.candidates_exact(dws, u));
                    }
                }
            }
            assert(s0.settled() ==> self.settled()) by {
                if s0.settled() {
                    assert forall|idx2: EntryIndex|
                        self.spec_grid().has_entry(idx2) && !self.unfilled().contains(
                            idx2,
                        ) implies #[trigger] self.spec_grid().entry_filled(idx2) by {
                        if idx2 == index {
                            assert forall|q2: int|
                                0 <= q2 < self.grid.entry_letters(index).len() implies (
                            #[trigger] self.grid.entry_letters(index)[q2]) is Some by {
                                assert(self.grid.letter_at(
                                    coords[q2].row as int,
                                    coords[q2].col as int,
                                ) == Some(word@[q2]));
                            }
                        } else {
                            assert(!s0.unfilled().contains(idx2));
                            assert(g0.entry_filled(idx2));
                            g0.lemma_entry_coords_ok(idx2);
                            g0.lemma_entry_coords_ok(index);
                            let jcoords = g0.entry_coords(idx2);
                            assert forall|q2: int|
                                0 <= q2 < self.grid.entry_letters(idx2).len() implies (
                            #[trigger] self.grid.entry_letters(idx2)[q2]) is Some by {
                                let r2 = jcoords[q2].row as int;
                                let c2 = jcoords[q2].col as int;
                                assert(g0.entry_letters(idx2)[q2] is Some);
                                assert(g0.letter_at(r2, c2) is Some);
                                if writes_upto(coords, coords.len() as int, r2, c2) {
                                    let q3 = choose|q3: int|
                                        0 <= q3 < coords.len() && (#[trigger] coords[q3]).row
                                            == r2 && coords[q3].col == c2;
                                    assert(self.grid.letter_at(r2, c2) == Some(word@[q3]));
                                } else {
                                    assert(g0.white(r2, c2));
                                    assert(self.grid.spec_cell(r2, c2) == g0.spec_cell(r2, c2));
                                }
                            }
                        }
                    }
                }
            }
            if spec_matches(g0.entry_letters(index), word@) {
                g0.lemma_entry_coords_ok(index);
                assert forall|r2: int, c2: int|
                    0 <= r2 < g0.spec_height() && 0 <= c2 < g0.spec_width() && g0.letter_at(
                        r2,
                        c2,
                    ) is Some implies #[trigger] self.grid.letter_at(r2, c2) == g0.letter_at(
                    r2,
                    c2,
                ) by {
                    if writes_upto(coords, coords.len() as int, r2, c2) {
                        let q3 = choose|q3: int|
                            0 <= q3 < coords.len() && (#[trigger] coords[q3]).row == r2
                                && coords[q3].col == c2;
                        assert(g0.entry_letters(index)[q3] == g0.letter_at(
                            coords[q3].row as int,
                            coords[q3].col as int,
                        ));
                        assert(g0.entry_letters(index)[q3] is Some);
                        assert(word@[q3] == g0.entry_letters(index)[q3]->0);
                        assert(self.grid.letter_at(r2, c2) == Some(word@[q3]));
                    } else {
                        assert(self.grid.spec_cell(r2, c2) == g0.spec_cell(r2, c2));
                    }
                }
            }
        }
    }

    /// Undoes the most recent fill: restores the slot's previous contents,
    /// marks it unfilled again, forgets the word it placed, and recomputes
    /// the candidates of the slot and of every crossing slot.  With an
    /// empty log this changes nothing.
    pub fn undo_last_fill(&mut self)
        requires
            old(self).wf(),
        ensures
            final(self).wf(),
            final(self).spec_dict() == old(self).spec_dict(),
            old(self).change_count() == 0 ==> *final(self) == *old(self),
            old(self).change_count() > 0 ==> Self::undo_post(*old(self), *final(self)),
            old(self).change_count() > 0 ==> ({
                let t0 = old(self).changes_view().last().0;
                &&& forall|j: EntryIndex|
                    j == t0 || final(self).spec_grid().crossing(t0, j)
                        ==> #[trigger] final(self).candidates_exact(old(self).dict_words(), j)
                &&& forall|j: EntryIndex|
                    j != t0 && !final(self).spec_grid().crossing(t0, j)
                        ==> #[trigger] final(self).candidates(j) == old(self).candidates(j)
                &&& old(self).lists_fresh(old(self).dict_words()) ==> final(self).lists_fresh(
                    old(self).dict_words(),
                )
            }),
    {
        if self.changes.len() == 0 {
            return ;
        }
        let ghost s0 = *self;
        let ghost g0 = self.grid;
        let ghost dws = self.dict.word_set();
        let (index, prev_word, prev_entry) = match self.changes.pop() {
            Some(t) => t,
            None => {
                proof {
                    assert(false);
                }
                (
                    EntryIndex { num: 1, dir: EntryDir::Across },
                    Word { letters: Vec::new() },
                    Entry::new(Vec::new()),
                )
            },
        };
        proof {
            assert(s0.changes@[s0.changes@.len() - 1].0 == index);
            assert(self.grid.has_entry(index));
            assert(prev_entry@.len() == self.grid.entry_coords(index).len());
            assert(self.changes_view() =~= s0.changes_view().drop_last());
        }
        let ghost coords = g0.entry_coords(index);
        self.grid.set_entry(index, &prev_entry);
        proof {
            assert forall|q: int|
                0 <= q < coords.len() implies #[trigger] self.grid.letter_at(
                coords[q].row as int,
                coords[q].col as int,
            ) == prev_entry@[q] by {
                assert(min_len(coords.len() as int, prev_entry@.len() as int)
                    == coords.len() as int);
            }
        }
        // The slot is unfilled again.
        let ghost u0 = self.unfilled_entries@;
        match find_index(&self.unfilled_entries, index) {
            Some(_) => {
                proof {
                    assert(s0.unfilled().contains(index));
                    assert(self.unfilled() =~= s0.unfilled().insert(index));
                }
            },
            None => {
                proof {
                    assert(!s0.unfilled().contains(index)) by {
                        if s0.unfilled().contains(index) {
                            let j = choose|j: int|
                                0 <= j < u0.len() && (#[trigger] u0[j]) == index;
                        }
                    }
                }
                self.unfilled_entries.push(index);
                proof {
                    let n = self.unfilled_entries@.len();
                    assert(self.unfilled_entries@[n - 1] == index);
                    assert forall|idx2: EntryIndex|
                        self.unfilled().contains(idx2) == s0.unfilled().insert(index).contains(
                            idx2,
                        ) by {
                        if self.unfilled().contains(idx2) {
                            let j = choose|j: int|
                                0 <= j < self.unfilled_entries@.len() && (
                                #[trigger] self.unfilled_entries@[j]) == idx2;
                            if j < n - 1 {
                                assert(u0[j] == idx2);
                                assert(s0.unfilled().contains(idx2));
                            }
                        }
                        if s0.unfilled().insert(index).contains(idx2) && idx2 != index {
                            let j = choose|j: int|
                                0 <= j < u0.len() && (#[trigger] u0[j]) == idx2;
                            assert(self.unfilled_entries@[j] == idx2);
                        }
                    }
                    assert(self.unfilled() =~= s0.unfilled().insert(index));
                    assert forall|j1: int, j2: int|
                        0 <= j1 < j2 < self.unfilled_entries@.len() implies (
                    #[trigger] self.unfilled_entries@[j1]) != (
                    #[trigger] self.unfilled_entries@[j2]) by {
                        if j2 == n - 1 {
                            assert(self.unfilled_entries@[j1] == u0[j1]);
                            assert(u0[j1] != index);
                        } else {
                            assert(self.unfilled_entries@[j1] == u0[j1]);
                            assert(self.unfilled_entries@[j2] == u0[j2]);
                        }
                    }
                }
            },
        }
        // The word it placed is no longer recorded.
        let ghost a0 = self.added_words@;
        match find_word(&self.added_words, &prev_word) {
            Some(j) => {
                self.added_words.remove(j);
                proof {
                    let jj = j as int;
                    assert forall|s2: Seq<Letter>|
                        self.added().contains(s2) == s0.added().remove(prev_word@).contains(
                            s2,
                        ) by {
                        if self.added().contains(s2) {
                            let q = choose|q: int|
                                0 <= q < self.added_words@.len() && (
                                #[trigger] self.added_words@[q])@ == s2;
                            let oq = if q < jj {
                                q
                            } else {
                                q + 1
                            };
                            assert(a0[oq] == self.added_words@[q]);
                            assert(s0.added().contains(s2));
                            assert(s2 != prev_word@) by {
                                if oq != jj {
                                    assert(a0[oq]@ != a0[jj]@);
                                }
                            }
                        }
                        if s0.added().remove(prev_word@).contains(s2) {
                            let q = choose|q: int|
                                0 <= q < a0.len() && (#[trigger] a0[q])@ == s2;
                            assert(q != jj);
                            let nq = if q < jj {
                                q
                            } else {
                                q - 1
                            };
                            assert(self.added_words@[nq] == a0[q]);
                            assert(self.added().contains(s2));
                        }
                    }
                    assert(self.added() =~= s0.added().remove(prev_word@));
                    assert forall|j1: int, j2: int|
                        0 <= j1 < j2 < self.added_words@.len() implies (
                    #[trigger] self.added_words@[j1])@ != (#[trigger] self.added_words@[j2])@ by {
                        let o1 = if j1 < jj {
                            j1
                        } else {
                            j1 + 1
                        };
                        let o2 = if j2 < jj {
                            j2
                        } else {
                            j2 + 1
                        };
                        assert(a0[o1] == self.added_words@[j1]);
                        assert(a0[o2] == self.added_words@[j2]);
                    }
                }
            },
            None => {
                proof {
                    assert(!s0.added().contains(prev_word@)) by {
                        if s0.added().contains(prev_word@) {
                            let q = choose|q: int|
                                0 <= q < a0.len() && (#[trigger] a0[q])@ == prev_word@;
                        }
                    }
                    assert(self.added() =~= s0.added().remove(prev_word@));
                }
            },
        }
        // The slot and every crossing slot see other letters now.
        let ghost mid = *self;
        self.update_possible_fills(index);
        let perps = self.grid.entries_perp_to(index);
        proof {
            assert forall|i: int|
                0 <= i < self.unfilled_entries@.len() implies self.list_ok(
                #[trigger] self.unfilled_entries@[i],
            ) || (exists|p2: int|
                0 <= p2 < perps@.len() && (#[trigger] perps@[p2])
                    == self.unfilled_entries@[i]) by {
                let u = self.unfilled_entries@[i];
                if u == index {
                    assert(self.list_ok(index));
                } else if self.grid.crossing(index, u) {
                    assert(perps@.contains(u));
                    let p2 = choose|p2: int|
                        0 <= p2 < perps@.len() && perps@[p2] == u;
                    assert(0 <= p2 < perps@.len() && perps@[p2] == u);
                } else {
                    assert(i < u0.len() ==> u0[i] == u);
                    assert(s0.unfilled().contains(u)) by {
                        if i < u0.len() {
                            assert(u0[i] == u);
                        } else {
                            assert(u == index);
                        }
                    }
                    assert(s0.grid.has_entry(u) && s0.list_ok(u));
                    assert(!g0.crossing(index, u));
                    assert forall|p3: int, q3: int|
                        0 <= p3 < g0.entry_coords(u).len() && 0 <= q3
                            < coords.len() implies (#[trigger] g0.entry_coords(u)[p3]) != (
                    #[trigger] coords[q3]) by {
                        if g0.entry_coords(u)[p3] == coords[q3] {
                            assert(g0.crossing(index, u));
                        }
                    }
                    Grid::lemma_untouched_letters(g0, self.grid, u, coords, coords.len() as int);
                    assert(self.grid.entry_letters(u) == g0.entry_letters(u));
                    assert(pf_get(self.possible_fills@, u) == pf_get(s0.possible_fills@, u));
                    assert(self.dict == s0.dict);
                    assert(self.list_ok(u) == s0.list_ok(u));
                }
            }
        }
        proof {
            assert(!self.grid.crossing(index, index));
            assert(!perps@.contains(index));
        }
        let mut t: usize = 0;
        while t < perps.len()
            invariant
                t <= perps@.len(),
                self.grid == mid.grid,
                self.dict == mid.dict,
                self.unfilled_entries@ == mid.unfilled_entries@,
                self.added_words@ == mid.added_words@,
                self.changes@ == mid.changes@,
                self.grid.wf(),
                self.dict.wf(),
                mid.wf_except_lists(),
                dws == self.dict.word_set(),
                mid.possible_fills@ == s0.possible_fills@,
                self.grid.has_entry(index),
                self.candidates_exact(dws, index),
                !perps@.contains(index),
                forall|j: EntryIndex| #[trigger] perps@.contains(j) <==> mid.grid.crossing(
                    index,
                    j,
                ),
                forall|j1: int, j2: int|
                    0 <= j1 < j2 < perps@.len() ==> (#[trigger] perps@[j1]) != (
                    #[trigger] perps@[j2]),
                forall|p2: int|
                    0 <= p2 < t ==> self.candidates_exact(dws, #[trigger] perps@[p2]),
                forall|j: EntryIndex|
                    (j != index && (forall|p2: int| 0 <= p2 < t ==> (#[trigger] perps@[p2]) != j))
                        ==> #[trigger] self.candidates(j) == s0.candidates(j),
                forall|i: int|
                    0 <= i < self.unfilled_entries@.len() ==> self.list_ok(
                        #[trigger] self.unfilled_entries@[i],
                    ) || (exists|p2: int|
                        t <= p2 < perps@.len() && (#[trigger] perps@[p2])
                            == self.unfilled_entries@[i]),
            decreases perps@.len() - t,
        {
            let jdx = perps[t];
            proof {
                assert(perps@[t as int] == jdx);
                assert(perps@.contains(jdx));
            }
            let ghost before = *self;
            self.update_possible_fills(jdx);
            proof {
                assert forall|i: int|
                    0 <= i < self.unfilled_entries@.len() implies self.list_ok(
                    #[trigger] self.unfilled_entries@[i],
                ) || (exists|p2: int|
                    t + 1 <= p2 < perps@.len() && (#[trigger] perps@[p2])
                        == self.unfilled_entries@[i]) by {
                    let u = self.unfilled_entries@[i];
                    if u == jdx {
                        assert(self.grid.has_entry(jdx)) by {
                            assert(mid.grid.crossing(index, jdx));
                        }
                        assert(self.list_ok(jdx));
                    } else if before.list_ok(u) {
                        assert(pf_get(self.possible_fills@, u) == pf_get(
                            before.possible_fills@,
                            u,
                        ));
                        assert(self.list_ok(u) == before.list_ok(u));
                    } else {
                        let p2 = choose|p2: int|
                            t <= p2 < perps@.len() && (#[trigger] perps@[p2]) == u;
                        assert(p2 != t);
                    }
                }
                assert(self.grid.has_entry(jdx)) by {
                    assert(mid.grid.crossing(index, jdx));
                }
                assert(jdx != index);
                assert(self.candidates_exact(dws, index) == before.candidates_exact(
                    dws,
                    index,
                )) by {
                    assert(pf_get(self.possible_fills@, index) == pf_get(
                        before.possible_fills@,
                        index,
                    ));
                }
                assert forall|p2: int|
                    0 <= p2 < t + 1 implies self.candidates_exact(
                    dws,
                    #[trigger] perps@[p2],
                ) by {
                    if p2 < t {
                        assert(perps@[p2] != jdx);
                        assert(pf_get(self.possible_fills@, perps@[p2]) == pf_get(
                            before.possible_fills@,
                            perps@[p2],
                        ));
                        assert(self.candidates_exact(dws, perps@[p2]) == before.candidates_exact(
                            dws,
                            perps@[p2],
                        ));
                    } else {
                        assert(self.candidates_exact(dws, jdx));
                    }
                }
                assert forall|j: EntryIndex|
                    (j != index && (forall|p2: int|
                        0 <= p2 < t + 1 ==> (#[trigger] perps@[p2]) != j))
                        implies #[trigger] self.candidates(j) == s0.candidates(j) by {
                    assert(perps@[t as int] != j);
                    assert(pf_get(self.possible_fills@, j) == pf_get(
                        before.possible_fills@,
                        j,
                    ));
                    assert(before.candidates(j) == s0.candidates(j));
                }
            }
            t += 1;
        }
        proof {
            assert forall|i: int|
                0 <= i < self.unfilled_entries@.len() implies self.grid.has_entry(
                #[trigger] self.unfilled_entries@[i],
            ) && self.list_ok(self.unfilled_entries@[i]) by {
                assert(mid.unfilled_entries@[i] == self.unfilled_entries@[i]);
            }
            assert(self.wf());
            assert(Self::undo_post(s0, *self)) by {
                assert(self.unfilled() =~= s0.unfilled().insert(index));
                assert(self.added() =~= s0.added().remove(prev_word@));
                assert(s0.changes_view().last() == (index, prev_word@, prev_entry@));
            }
            // The slot and its crossing slots now hold exact lookups; every
            // other list is untouched, so freshness carries over.
            assert forall|j: EntryIndex|
                j == index || self.grid.crossing(index, j) implies #[trigger] self
                .candidates_exact(dws, j) by {
                if j != index {
                    assert(perps@.contains(j));
                    let p2 = choose|p2: int| 0 <= p2 < perps@.len() && perps@[p2] == j;
                }
            }
            assert forall|j: EntryIndex|
                j != index && !self.grid.crossing(index, j) implies #[trigger] self.candidates(j)
                == s0.candidates(j) by {
                assert forall|p2: int| 0 <= p2 < perps@.len() implies (#[trigger] perps@[p2])
                    != j by {
                    if perps@[p2] == j {
                        assert(perps@.contains(j));
                    }
                }
            }
            if s0.lists_fresh(dws) {
                assert forall|i: int|
                    0 <= i < self.unfilled_entries@.len() implies self.candidates_exact(
                    dws,
                    #[trigger] self.unfilled_entries@[i],
                ) by {
                    let u = self.unfilled_entries@[i];
                    if u == index {
                        assert(self.candidates_exact(dws, index));
                    } else if self.grid.crossing(index, u) {
                        assert(self.candidates_exact(dws, u));
                    } else {
                        assert(s0.unfilled().contains(u)) by {
                            if i < u0.len() {
                                assert(u0[i] == u);
                            } else {
                                assert(u == index);
                            }
                        }
                        let oj = choose|oj: int|
                            0 <= oj < s0.unfilled_entries@.len() && (
                            #[trigger] s0.unfilled_entries@[oj]) == u;
                        assert(s0.candidates_exact(dws, u));
                        assert(self.candidates(u) == s0.candidates(u));
                        assert(s0.grid.has_entry(u));
                        assert(!g0.crossing(index, u));
                        assert forall|p3: int, q3: int|
                            0 <= p3 < g0.entry_coords(u).len() && 0 <= q3
                                < coords.len() implies (#[trigger] g0.entry_coords(u)[p3]) != (
                        #[trigger] coords[q3]) by {
                            if g0.entry_coords(u)[p3] == coords[q3] {
                                assert(g0.crossing(index, u));
                            }
                        }
                        Grid::lemma_untouched_letters(
                            g0,
                            self.grid,
                            u,
                            coords,
                            coords.len() as int,
                        );
                        assert(self.grid.entry_letters(u) == g0.entry_letters(u));
                        assert(self.candidates_exact(dws, u) == s0.candidates_exact(dws, u));
                    }
                }
            }
        }
    }

    /// Fills the whole grid by depth-first search: pick the unfilled slot
    /// with the fewest candidates, try at most five of them in shuffled
    /// order, recurse after each, and undo on failure.  True means the grid
    /// is complete; false means this bounded, randomized attempt failed and
    /// left the solver exactly as it was.
    pub fn solve(&mut self, shuffler: &mut Shuffler) -> (r: bool)
        requires
            old(self).wf(),
            old(self).settled(),
            old(self).lists_fresh(old(self).dict_words()),
        ensures
            final(self).wf(),
            final(self).settled(),
            final(self).spec_dict() == old(self).spec_dict(),
            final(self).lists_fresh(old(self).dict_words()),
            topology_preserved(old(self).spec_grid(), final(self).spec_grid()),
            final(self).dict_words() == old(self).dict_words(),
            forall|idx: EntryIndex|
                #![trigger old(self).spec_grid().entry_letters(idx)]
                (old(self).unfilled() == set![idx] && (exists|w: Seq<Letter>| #[trigger]
                    old(self).dict_words().contains(w) && spec_matches(
                        old(self).spec_grid().entry_letters(idx),
                        w,
                    ))) ==> r,
            forall|idx: EntryIndex|
                #![trigger old(self).unfilled().contains(idx)]
                (old(self).unfilled().contains(idx) && (forall|w: Seq<Letter>| #[trigger]
                    old(self).dict_words().contains(w) ==> !spec_matches(
                        old(self).spec_grid().entry_letters(idx),
                        w,
                    ))) ==> !r,
            forall|idx: EntryIndex|
                #![trigger old(self).candidates(idx)]
                (old(self).unfilled().contains(idx) && old(self).candidates(idx) == Some(
                    Seq::<Word>::empty(),
                )) ==> !r,
            r ==> final(self).unfilled().is_empty(),
            r ==> forall|idx: EntryIndex| #[trigger]
                final(self).spec_grid().has_entry(idx) ==> final(self).spec_grid().entry_filled(
                    idx,
                ),
            r ==> forall|r2: int, c2: int|
                0 <= r2 < old(self).spec_grid().spec_height() && 0 <= c2 < old(
                    self,
                ).spec_grid().spec_width() && old(self).spec_grid().letter_at(r2, c2) is Some
                    ==> #[trigger] final(self).spec_grid().letter_at(r2, c2) == old(
                    self,
                ).spec_grid().letter_at(r2, c2),
            r ==> forall|idx: EntryIndex| #[trigger]
                old(self).unfilled().contains(idx) ==> final(self).dict_words().contains(
                    word_of(final(self).spec_grid().entry_letters(idx)),
                ),
            old(self).unfilled().is_empty() ==> r && *final(self) == *old(self),
            !r ==> ({
                &&& forall|r2: int, c2: int|
                    0 <= r2 < old(self).spec_grid().spec_height() && 0 <= c2 < old(
                        self,
                    ).spec_grid().spec_width() ==> #[trigger] final(self).spec_grid().spec_cell(
                        r2,
                        c2,
                    ) == old(self).spec_grid().spec_cell(r2, c2)
                &&& final(self).unfilled() == old(self).unfilled()
                &&& final(self).unfilled_len() == old(self).unfilled_len()
                &&& final(self).changes_view() == old(self).changes_view()
                &&& final(self).added().subset_of(old(self).added())
            }),
        decreases old(self).unfilled_len(),
    {
        let ghost dws = self.dict.word_set();
        if self.unfilled_entries.len() == 0 {
            proof {
                assert(self.unfilled().is_empty()) by {
                    assert forall|idx: EntryIndex| !self.unfilled().contains(idx) by {
                        if self.unfilled().contains(idx) {
                            let i = choose|i: int|
                                0 <= i < self.unfilled_entries@.len() && (
                                #[trigger] self.unfilled_entries@[i]) == idx;
                        }
                    }
                    assert(self.unfilled() =~= Set::<EntryIndex>::empty());
                }
                assert forall|idx: EntryIndex|
                    #![trigger self.spec_grid().entry_letters(idx)]
                    !(self.unfilled() == set![idx]) by {
                    if self.unfilled() == set![idx] {
                        assert(set![idx].contains(idx));
                    }
                }
            }
            return true;
        }
        proof {
            assert(self.unfilled().contains(self.unfilled_entries@[0]));
            assert(!old(self).unfilled().is_empty());
        }
        let most = self.most_constrained();
        let ghost s0 = *self;
        let k = match self.pf_find(most) {
            Some(k) => k,
            None => {
                proof {
                    let i = choose|i: int|
                        0 <= i < self.unfilled_entries@.len() && (
                        #[trigger] self.unfilled_entries@[i]) == most;
                    assert(self.list_ok(most));
                    assert(false);
                }
                0
            },
        };
        let mut poss = clone_words(&self.possible_fills[k].1);
        proof {
            let i = choose|i: int|
                0 <= i < self.unfilled_entries@.len() && (#[trigger] self.unfilled_entries@[i])
                    == most;
            assert(self.list_ok(most));
            assert(self.candidates_exact(dws, most));
            assert forall|j: int|
                0 <= j < poss@.len() implies self.dict_words().contains((#[trigger] poss@[j])@)
                && spec_matches(s0.spec_grid().entry_letters(most), poss@[j]@) by {
                let lst = pf_get(self.possible_fills@, most)->0;
                assert(poss@[j]@ == lst[j]@);
            }
        }
        if poss.len() == 0 {
            proof {
                // With complete candidate lists, an empty list at the chosen
                // slot means no stored word fits it at all.
                assert forall|idx: EntryIndex|
                    #![trigger s0.spec_grid().entry_letters(idx)]
                    !(s0.unfilled() == set![idx] && (exists|w: Seq<Letter>| #[trigger]
                        s0.dict_words().contains(w) && spec_matches(
                            s0.spec_grid().entry_letters(idx),
                            w,
                        ))) by {
                    if s0.unfilled() == set![idx] && (exists|w: Seq<Letter>| #[trigger]
                        s0.dict_words().contains(w) && spec_matches(
                            s0.spec_grid().entry_letters(idx),
                            w,
                        )) {
                        assert(set![idx].contains(most));
                        assert(most == idx);
                        let w = choose|w: Seq<Letter>|
                            #[trigger] s0.dict_words().contains(w) && spec_matches(
                                s0.spec_grid().entry_letters(idx),
                                w,
                            );
                        let lst = pf_get(s0.possible_fills@, most)->0;
                        assert(exists|p: int| 0 <= p < lst.len() && (#[trigger] lst[p])@ == w);
                        assert(lst.len() > 0);
                        assert(poss@.len() == lst.len());
                        assert(false);
                    }
                }
            }
            return false;
        }
        let ghost pre_shuffle = poss@;
        shuffler.shuffle(&mut poss);
        proof {
            broadcast use vstd::seq_lib::group_to_multiset_ensures;

            assert forall|j: int|
                0 <= j < poss@.len() implies self.dict_words().contains((#[trigger] poss@[j])@)
                && spec_matches(s0.spec_grid().entry_letters(most), poss@[j]@) by {
                assert(poss@.contains(poss@[j]));
                assert(poss@.to_multiset().count(poss@[j]) > 0);
                assert(pre_shuffle.to_multiset().count(poss@[j]) > 0);
                assert(pre_shuffle.contains(poss@[j]));
                let jj = choose|jj: int|
                    0 <= jj < pre_shuffle.len() && pre_shuffle[jj] == poss@[j];
                assert(self.dict_words().contains(pre_shuffle[jj]@));
            }
            assert(poss@.to_multiset().len() == poss@.len());
            assert(pre_shuffle.to_multiset().len() == pre_shuffle.len());
            assert(poss@.len() == pre_shuffle.len());
        }
        if poss.len() > 5 {
            let ghost wide = poss@;
            poss.truncate(5);
            proof {
                assert forall|j: int|
                    0 <= j < poss@.len() implies self.dict_words().contains(
                    (#[trigger] poss@[j])@,
                ) && spec_matches(s0.spec_grid().entry_letters(most), poss@[j]@) by {
                    assert(poss@[j] == wide[j]);
                }
            }
        }
        let mut t: usize = 0;
        while t < poss.len()
            invariant
                self.wf(),
                self.settled(),
                s0 == *old(self),
                s0.wf(),
                s0.settled(),
                s0.unfilled().contains(most),
                topology_preserved(s0.spec_grid(), self.spec_grid()),
                self.dict_words() == s0.dict_words(),
                self.dict == s0.dict,
                dws == s0.dict.word_set(),
                s0.lists_fresh(dws),
                self.lists_fresh(dws),
                t <= poss@.len(),
                poss@.len() > 0,
                forall|j: int|
                    0 <= j < poss@.len() ==> s0.dict_words().contains((#[trigger] poss@[j])@)
                        && spec_matches(s0.spec_grid().entry_letters(most), poss@[j]@),
                forall|r2: int, c2: int|
                    0 <= r2 < s0.spec_grid().spec_height() && 0 <= c2 < s0.spec_grid().spec_width()
                        ==> #[trigger] self.spec_grid().spec_cell(r2, c2)
                        == s0.spec_grid().spec_cell(r2, c2),
                self.unfilled() == s0.unfilled(),
                self.unfilled_len() == s0.unfilled_len(),
                self.changes_view() == s0.changes_view(),
                self.added().subset_of(s0.added()),
                t > 0 ==> forall|idx: EntryIndex|
                    #![trigger s0.spec_grid().entry_letters(idx)]
                    s0.unfilled() == set![idx] ==> (forall|w: Seq<Letter>| #[trigger]
                        s0.dict_words().contains(w) ==> !spec_matches(
                            s0.spec_grid().entry_letters(idx),
                            w,
                        )),
            decreases poss@.len() - t,
        {
            let ghost before = *self;
            let ghost g0 = s0.spec_grid();
            let ghost coords = g0.entry_coords(most);
            proof {
                let i = choose|i: int|
                    0 <= i < s0.unfilled_entries@.len() && (#[trigger] s0.unfilled_entries@[i])
                        == most;
                assert(g0.has_entry(most));
                assert(spec_matches(g0.entry_letters(most), poss@[t as int]@));
                assert(poss@[t as int]@.len() == g0.entry_letters(most).len());
                assert(g0.entry_letters(most).len() == coords.len());
                assert(self.spec_grid().entry_coords(most) == coords);
                Grid::lemma_equal_cells_letters(g0, self.spec_grid(), most);
                assert(self.spec_grid().entry_letters(most) == g0.entry_letters(most));
                assert(spec_matches(
                    self.spec_grid().entry_letters(most),
                    poss@[t as int]@,
                ));
            }
            self.fill(most, &poss[t]);
            let ghost after_fill = *self;
            let solved = self.solve(shuffler);
            if solved {
                proof {
                    lemma_topology_trans(
                        before.spec_grid(),
                        after_fill.spec_grid(),
                        self.spec_grid(),
                    );
                    lemma_topology_trans(
                        s0.spec_grid(),
                        before.spec_grid(),
                        self.spec_grid(),
                    );
                    let bg = before.spec_grid();
                    let fg = after_fill.spec_grid();
                    let ng = self.spec_grid();
                    let word = poss@[t as int];
                    g0.lemma_entry_coords_ok(most);
                    // Letters present at the start are never overwritten:
                    // every word is placed over a matching pattern.
                    assert forall|r2: int, c2: int|
                        0 <= r2 < g0.spec_height() && 0 <= c2 < g0.spec_width() && g0.letter_at(
                            r2,
                            c2,
                        ) is Some implies #[trigger] ng.letter_at(r2, c2) == g0.letter_at(
                        r2,
                        c2,
                    ) by {
                        assert(bg.spec_cell(r2, c2) == g0.spec_cell(r2, c2));
                        assert(bg.letter_at(r2, c2) == g0.letter_at(r2, c2));
                        assert(fg.letter_at(r2, c2) == bg.letter_at(r2, c2));
                        assert(ng.letter_at(r2, c2) == fg.letter_at(r2, c2));
                    }
                    // Every slot filled during this attempt holds a word the
                    // dictionary vouches for.
                    assert(ng.entry_coords(most) == coords);
                    assert forall|idx: EntryIndex| #[trigger]
                        s0.unfilled().contains(idx) implies self.dict_words().contains(
                        word_of(ng.entry_letters(idx)),
                    ) by {
                        if idx == most {
                            assert forall|q: int|
                                0 <= q < coords.len() implies #[trigger] ng.entry_letters(
                                most,
                            )[q] == Some(word@[q]) by {
                                let r2 = coords[q].row as int;
                                let c2 = coords[q].col as int;
                                assert(fg.letter_at(r2, c2) == Some(word@[q]));
                                assert(ng.letter_at(r2, c2) == fg.letter_at(r2, c2));
                                assert(ng.entry_letters(most)[q] == ng.letter_at(r2, c2));
                            }
                            assert(word_of(ng.entry_letters(most)) =~= word@);
                            assert(s0.dict_words().contains(word@));
                        } else {
                            assert(after_fill.unfilled().contains(idx)) by {
                                assert(before.unfilled().contains(idx));
                            }
                        }
                    }
                    // Every slot that was unfilled at entry therefore fits
                    // some stored word, which refutes both failure clauses.
                    assert forall|idx: EntryIndex| #[trigger]
                        s0.unfilled().contains(idx) implies exists|w: Seq<Letter>| #[trigger]
                        s0.dict_words().contains(w) && spec_matches(
                            g0.entry_letters(idx),
                            w,
                        ) by {
                        let w = word_of(ng.entry_letters(idx));
                        assert(s0.dict_words().contains(w));
                        let i2 = choose|i2: int|
                            0 <= i2 < s0.unfilled_entries@.len() && (
                            #[trigger] s0.unfilled_entries@[i2]) == idx;
                        assert(g0.has_entry(idx));
                        g0.lemma_entry_coords_ok(idx);
                        let jcoords = g0.entry_coords(idx);
                        assert(ng.entry_coords(idx) == jcoords);
                        assert(spec_matches(g0.entry_letters(idx), w)) by {
                            assert(w.len() == ng.entry_letters(idx).len());
                            assert(ng.entry_letters(idx).len() == jcoords.len());
                            assert(g0.entry_letters(idx).len() == jcoords.len());
                            assert forall|q: int|
                                0 <= q < jcoords.len() implies match #[trigger] g0.entry_letters(
                                idx,
                            )[q] {
                                Some(l) => l == w[q],
                                None => true,
                            } by {
                                let r2 = jcoords[q].row as int;
                                let c2 = jcoords[q].col as int;
                                if g0.entry_letters(idx)[q] is Some {
                                    assert(g0.entry_letters(idx)[q] == g0.letter_at(r2, c2));
                                    assert(g0.white(r2, c2));
                                    assert(ng.letter_at(r2, c2) == g0.letter_at(r2, c2));
                                    assert(ng.entry_letters(idx)[q] == ng.letter_at(r2, c2));
                                    assert(w[q] == ng.entry_letters(idx)[q]->0);
                                }
                            }
                        }
                    }
                    assert forall|idx: EntryIndex|
                        #![trigger s0.unfilled().contains(idx)]
                        !(s0.unfilled().contains(idx) && (forall|w: Seq<Letter>| #[trigger]
                            s0.dict_words().contains(w) ==> !spec_matches(
                                g0.entry_letters(idx),
                                w,
                            ))) by {
                        if s0.unfilled().contains(idx) {
                            let w = choose|w: Seq<Letter>|
                                #[trigger] s0.dict_words().contains(w) && spec_matches(
                                    g0.entry_letters(idx),
                                    w,
                                );
                        }
                    }
                    assert forall|idx: EntryIndex|
                        #![trigger s0.candidates(idx)]
                        !(s0.unfilled().contains(idx) && s0.candidates(idx) == Some(
                            Seq::<Word>::empty(),
                        )) by {
                        if s0.unfilled().contains(idx) && s0.candidates(idx) == Some(
                            Seq::<Word>::empty(),
                        ) {
                            let i2 = choose|i2: int|
                                0 <= i2 < s0.unfilled_entries@.len() && (
                                #[trigger] s0.unfilled_entries@[i2]) == idx;
                            assert(s0.candidates_exact(dws, idx));
                            let w = choose|w: Seq<Letter>|
                                #[trigger] s0.dict_words().contains(w) && spec_matches(
                                    g0.entry_letters(idx),
                                    w,
                                );
                            let lst = pf_get(s0.possible_fills@, idx)->0;
                            assert(exists|p: int|
                                0 <= p < lst.len() && (#[trigger] lst[p])@ == w);
                            assert(false);
                        }
                    }
                }
                return true;
            }
            let ghost after_rec = *self;
            self.undo_last_fill();
            proof {
                let word = poss@[t as int];
                assert(after_fill.changes_view() == before.changes_view().push(
                    (most, word@, before.spec_grid().entry_letters(most)),
                ));
                assert(after_fill.changes_view().len() == before.changes_view().len() + 1);
                assert(after_fill.change_count() == after_fill.changes_view().len());
                assert(after_fill.change_count() > 0);
                assert(after_rec.changes_view() == after_fill.changes_view());
                assert(after_rec.changes_view().last() == (
                    most,
                    word@,
                    before.spec_grid().entry_letters(most),
                ));
                assert(Self::undo_post(after_rec, *self));
                // The log, the unfilled set and the placed set return to
                // their loop-head values.
                assert(self.changes_view() =~= before.changes_view());
                assert(self.unfilled() =~= before.unfilled()) by {
                    assert(after_rec.unfilled() == before.unfilled().remove(most));
                }
                assert(!after_rec.unfilled().contains(most));
                assert(self.unfilled_len() == before.unfilled_len());
                assert forall|s2: Seq<Letter>| #[trigger]
                    self.added().contains(s2) implies s0.added().contains(s2) by {
                    assert(after_rec.added().contains(s2) && s2 != word@);
                    assert(after_fill.added().contains(s2));
                    assert(before.added().insert(word@).contains(s2));
                    assert(before.added().contains(s2));
                }
                // The grid cells return to their loop-head values.
                let bg = before.spec_grid();
                let fg = after_fill.spec_grid();
                let rg = after_rec.spec_grid();
                let ng = self.spec_grid();
                assert(bg.has_entry(most));
                assert(bg.entry_coords(most) == coords);
                assert(fg.entry_coords(most) == coords);
                assert(rg.entry_coords(most) == coords);
                g0.lemma_entry_coords_ok(most);
                assert forall|r2: int, c2: int|
                    0 <= r2 < g0.spec_height() && 0 <= c2 < g0.spec_width() implies #[trigger] ng
                    .spec_cell(r2, c2) == g0.spec_cell(r2, c2) by {
                    if writes_upto(coords, coords.len() as int, r2, c2) {
                        let q = choose|q: int|
                            0 <= q < coords.len() && (#[trigger] coords[q]).row == r2
                                && coords[q].col == c2;
                        assert(g0.white(coords[q].row as int, coords[q].col as int));
                        assert(g0.white(r2, c2));
                        assert(ng.letter_at(r2, c2) == bg.entry_letters(most)[q]);
                        assert(bg.entry_letters(most)[q] == bg.letter_at(r2, c2));
                        assert(bg.letter_at(r2, c2) == cell_letter(bg.spec_cell(r2, c2)));
                        assert(ng.letter_at(r2, c2) == cell_letter(ng.spec_cell(r2, c2)));
                        assert(bg.white(r2, c2));
                        assert(ng.white(r2, c2));
                        assert(cell_white(ng.spec_cell(r2, c2)));
                        assert(cell_white(bg.spec_cell(r2, c2)));
                        assert(ng.spec_cell(r2, c2) == Cell::White(
                            cell_letter(ng.spec_cell(r2, c2)),
                        ));
                        assert(bg.spec_cell(r2, c2) == Cell::White(
                            cell_letter(bg.spec_cell(r2, c2)),
                        ));
                        assert(bg.spec_cell(r2, c2) == g0.spec_cell(r2, c2));
                    } else {
                        assert(ng.spec_cell(r2, c2) == rg.spec_cell(r2, c2));
                        assert(rg.spec_cell(r2, c2) == fg.spec_cell(r2, c2));
                        assert(fg.spec_cell(r2, c2) == bg.spec_cell(r2, c2));
                        assert(bg.spec_cell(r2, c2) == g0.spec_cell(r2, c2));
                    }
                }
                // The whole topology chain returns as well.
                lemma_topology_trans(g0, bg, fg);
                lemma_topology_trans(g0, fg, rg);
                lemma_topology_trans(g0, rg, ng);
                // With cells and the unfilled set restored, settledness
                // carries back from the starting state.
                assert(self.settled()) by {
                    assert forall|idx: EntryIndex|
                        ng.has_entry(idx) && !self.unfilled().contains(
                            idx,
                        ) implies #[trigger] ng.entry_filled(idx) by {
                        assert(g0.has_entry(idx));
                        assert(!s0.unfilled().contains(idx));
                        assert(g0.entry_filled(idx));
                        Grid::lemma_equal_cells_letters(g0, ng, idx);
                        assert(ng.entry_letters(idx) == g0.entry_letters(idx));
                        assert forall|q2: int|
                            0 <= q2 < ng.entry_letters(idx).len() implies (
                        #[trigger] ng.entry_letters(idx)[q2]) is Some by {
                            assert(g0.entry_letters(idx)[q2] is Some);
                        }
                    }
                }
                // Had there been a single unfilled slot with a fitting
                // word, this iteration would have succeeded.
                assert forall|idx: EntryIndex|
                    #![trigger s0.spec_grid().entry_letters(idx)]
                    s0.unfilled() == set![idx] implies (forall|w: Seq<Letter>| #[trigger]
                    s0.dict_words().contains(w) ==> !spec_matches(
                        s0.spec_grid().entry_letters(idx),
                        w,
                    )) by {
                    if s0.unfilled() == set![idx] {
                        assert forall|w: Seq<Letter>| #[trigger]
                            s0.dict_words().contains(w) implies !spec_matches(
                            g0.entry_letters(idx),
                            w,
                        ) by {
                            if spec_matches(g0.entry_letters(idx), w) {
                                assert(set![idx].contains(most));
                                assert(most == idx);
                                assert(after_fill.unfilled() =~= Set::<EntryIndex>::empty()) by {
                                    assert(after_fill.unfilled() == before.unfilled().remove(
                                        most,
                                    ));
                                    assert(before.unfilled() == s0.unfilled());
                                }
                                assert(after_fill.unfilled().is_empty());
                                assert(solved);
                                assert(false);
                            }
                        }
                    }
                }
            }
            t += 1;
        }
        false
    }

    /// The unfilled entry with the fewest stored candidates, scanning the
    /// unfilled list front to back and keeping the first minimum.
    fn most_constrained(&self) -> (r: EntryIndex)
        requires
            self.wf(),
            self.unfilled_entries@.len() > 0,
        ensures
            self.unfilled().contains(r),
            forall|i: int|
                0 <= i < self.unfilled_entries@.len() ==> pf_get(self.possible_fills@, r)->0.len()
                    <= pf_get(
                    self.possible_fills@,
                    #[trigger] self.unfilled_entries@[i],
                )->0.len(),
    {
        let mut best: usize = 0;
        let mut best_len: usize = self.cand_count(0);
        let mut i: usize = 1;
        while i < self.unfilled_entries.len()
            invariant
                self.wf(),
                self.unfilled_entries@.len() > 0,
                best < self.unfilled_entries@.len(),
                i <= self.unfilled_entries@.len(),
                best_len == pf_get(
                    self.possible_fills@,
                    self.unfilled_entries@[best as int],
                )->0.len(),
                forall|j: int|
                    0 <= j < i ==> best_len <= pf_get(
                        self.possible_fills@,
                        #[trigger] self.unfilled_entries@[j],
                    )->0.len(),
            decreases self.unfilled_entries@.len() - i,
        {
            let n = self.cand_count(i);
            if n < best_len {
                best = i;
                best_len = n;
            }
            i += 1;
        }
        proof {
            assert(self.unfilled().contains(self.unfilled_entries@[best as int]));
        }
        self.unfilled_entries[best]
    }

    /// The number of candidates stored for the unfilled entry at this
    /// position of the unfilled list.
    fn cand_count(&self, i: usize) -> (n: usize)
        requires
            self.wf(),
            i < self.unfilled_entries@.len(),
        ensures
            n == pf_get(self.possible_fills@, self.unfilled_entries@[i as int])->0.len(),
    {
        let idx = self.unfilled_entries[i];
        proof {
            assert(self.unfilled_entries@[i as int] == idx);
            assert(self.list_ok(idx));
        }
        match self.pf_find(idx) {
            Some(k) => self.possible_fills[k].1.len(),
            None => {
                proof {
                    assert(false);
                }
                0
            },
        }
    }

    /// Whether everything of the solver's well-formedness that does not
    /// concern candidate lists holds.
    spec fn wf_except_lists(&self) -> bool {
        &&& self.grid.wf()
        &&& self.dict.wf()
        &&& forall|i1: int, i2: int|
            0 <= i1 < i2 < self.unfilled_entries@.len() ==> (
            #[trigger] self.unfilled_entries@[i1]) != (#[trigger] self.unfilled_entries@[i2])
        &&& forall|i: int|
            0 <= i < self.unfilled_entries@.len() ==> self.grid.has_entry(
                #[trigger] self.unfilled_entries@[i],
            )
        &&& forall|k: int|
            0 <= k < self.changes@.len() ==> self.grid.has_entry(
                (#[trigger] self.changes@[k]).0,
            ) && self.changes@[k].2@.len() == self.grid.entry_coords(self.changes@[k].0).len()
        &&& forall|i1: int, i2: int|
            0 <= i1 < i2 < self.added_words@.len() ==> (#[trigger] self.added_words@[i1])@ != (
            #[trigger] self.added_words@[i2])@
    }
}

/// The first position holding the index in a list, if any.
fn find_index(v: &Vec<EntryIndex>, index: EntryIndex) -> (r: Option<usize>)
    ensures
        r matches Some(p) ==> p < v@.len() && v@[p as int] == index && forall|j: int|
            0 <= j < p ==> (#[trigger] v@[j]) != index,
        r is None ==> forall|j: int| 0 <= j < v@.len() ==> (#[trigger] v@[j]) != index,
{
    let mut p: usize = 0;
    while p < v.len()
        invariant
            p <= v@.len(),
            forall|j: int| 0 <= j < p ==> (#[trigger] v@[j]) != index,
        decreases v@.len() - p,
    {
        if v[p] == index {
            return Some(p);
        }
        p += 1;
    }
    None
}

impl<T: UnrankedDict> GridSolver<T> {
    /// The placed words, in recording order.
    pub closed spec fn added_seq(&self) -> Seq<Word> {
        self.added_words@
    }

    /// The words recorded as placed, in recording order.
    pub fn added_words(&self) -> (r: &Vec<Word>)
        ensures
            r@ == self.added_seq(),
    {
        &self.added_words
    }

    /// The grid being filled.
    pub fn grid(&self) -> (r: &Grid)
        ensures
            r == self.spec_grid(),
    {
        &self.grid
    }

    /// Solvers equal in every field have equal views.
    proof fn lemma_same_views(a: GridSolver<T>, b: GridSolver<T>)
        requires
            a.grid == b.grid,
            a.dict == b.dict,
            a.unfilled_entries@ == b.unfilled_entries@,
            a.added_words@ == b.added_words@,
            a.changes@ == b.changes@,
        ensures
            a.unfilled() == b.unfilled(),
            a.added() == b.added(),
            a.changes_view() == b.changes_view(),
            a.dict_words() == b.dict_words(),
            a.spec_grid() == b.spec_grid(),
            a.unfilled_len() == b.unfilled_len(),
            a.settled() == b.settled(),
    {
        assert forall|idx: EntryIndex|
            a.unfilled().contains(idx) == b.unfilled().contains(idx) by {
            if a.unfilled().contains(idx) {
                let i = choose|i: int|
                    0 <= i < a.unfilled_entries@.len() && (#[trigger] a.unfilled_entries@[i])
                        == idx;
                assert(b.unfilled_entries@[i] == idx);
            }
            if b.unfilled().contains(idx) {
                let i = choose|i: int|
                    0 <= i < b.unfilled_entries@.len() && (#[trigger] b.unfilled_entries@[i])
                        == idx;
                assert(a.unfilled_entries@[i] == idx);
            }
        }
        assert(a.unfilled() =~= b.unfilled());
        assert forall|s2: Seq<Letter>| a.added().contains(s2) == b.added().contains(s2) by {
            if a.added().contains(s2) {
                let i = choose|i: int|
                    0 <= i < a.added_words@.len() && (#[trigger] a.added_words@[i])@ == s2;
                assert(b.added_words@[i]@ == s2);
            }
            if b.added().contains(s2) {
                let i = choose|i: int|
                    0 <= i < b.added_words@.len() && (#[trigger] b.added_words@[i])@ == s2;
                assert(a.added_words@[i]@ == s2);
            }
        }
        assert(a.added() =~= b.added());
        assert(a.settled() == b.settled()) by {
            if a.settled() {
                assert forall|idx: EntryIndex|
                    b.spec_grid().has_entry(idx) && !b.unfilled().contains(
                        idx,
                    ) implies #[trigger] b.spec_grid().entry_filled(idx) by {
                    assert(a.spec_grid().entry_filled(idx));
                }
            }
            if b.settled() {
                assert forall|idx: EntryIndex|
                    a.spec_grid().has_entry(idx) && !a.unfilled().contains(
                        idx,
                    ) implies #[trigger] a.spec_grid().entry_filled(idx) by {
                    assert(b.spec_grid().entry_filled(idx));
                }
            }
        }
    }
}

impl<T: RankedDict> GridSolver<T> {
    /// The stored score of a word, as the solver's contracts see it.
    pub closed spec fn dict_score(&self, w: Seq<Letter>) -> i32 {
        self.dict.score_of(w)
    }

    /// The words the ranked search may place: the stored words whose score
    /// reaches the threshold.
    pub open spec fn ranked_words(&self) -> Set<Seq<Letter>> {
        Set::new(
            |w: Seq<Letter>| self.dict_words().contains(w) && self.dict_score(w) >= RANK_THRESHOLD,
        )
    }

    /// Solvers with the same dictionary accept the same ranked words.
    proof fn lemma_same_ranked(a: GridSolver<T>, b: GridSolver<T>)
        requires
            a.dict == b.dict,
        ensures
            a.ranked_words() == b.ranked_words(),
    {
        assert(a.ranked_words() =~= b.ranked_words());
    }

    /// A solver for the ranked search: as `new`, except that every unfilled
    /// slot's initial candidates come from the ranked, threshold-bounded
    /// lookup instead of the unrestricted one.
    pub fn new_ranked(grid: Grid, dict: T) -> (r: GridSolver<T>)
        requires
            grid.wf(),
            dict.wf(),
        ensures
            r.wf(),
            r.spec_grid() == grid,
            r.dict_words() == dict.word_set(),
            r.change_count() == 0,
            forall|idx: EntryIndex| #[trigger]
                r.unfilled().contains(idx) <==> grid.has_entry(idx) && !grid.entry_filled(idx),
            forall|s: Seq<Letter>| #[trigger] r.added().contains(s) <==> Self::seeded_word(grid, s),
            r.settled(),
            r.lists_fresh(r.ranked_words()),
            forall|idx: EntryIndex| #[trigger]
                r.unfilled().contains(idx) ==> r.candidates_exact(r.ranked_words(), idx),
    {
        let mut solver = Self::new(grid, dict);
        let ghost base = solver;
        let ghost rws = solver.ranked_words();
        let mut i: usize = 0;
        while i < solver.unfilled_entries.len()
            invariant
                solver.wf(),
                i <= solver.unfilled_entries@.len(),
                solver.grid == base.grid,
                solver.dict == base.dict,
                solver.unfilled_entries@ == base.unfilled_entries@,
                solver.added_words@ == base.added_words@,
                solver.changes@ == base.changes@,
                rws == solver.ranked_words(),
                forall|p: int|
                    0 <= p < i ==> solver.candidates_exact(
                        rws,
                        #[trigger] solver.unfilled_entries@[p],
                    ),
            decreases solver.unfilled_entries@.len() - i,
        {
            let idx = solver.unfilled_entries[i];
            proof {
                assert(solver.unfilled_entries@[i as int] == idx);
                assert(solver.grid.has_entry(idx));
            }
            let ghost before = solver;
            solver.update_possible_fills_ranked(idx);
            proof {
                Self::lemma_same_ranked(before, solver);
                assert forall|p: int|
                    0 <= p < solver.unfilled_entries@.len() implies solver.grid.has_entry(
                    #[trigger] solver.unfilled_entries@[p],
                ) && solver.list_ok(solver.unfilled_entries@[p]) by {
                    let u = solver.unfilled_entries@[p];
                    assert(before.unfilled_entries@[p] == u);
                    assert(before.grid.has_entry(u) && before.list_ok(u));
                    if u == idx {
                        assert(solver.list_ok(idx));
                    } else {
                        assert(pf_get(solver.possible_fills@, u) == pf_get(
                            before.possible_fills@,
                            u,
                        ));
                        assert(solver.list_ok(u) == before.list_ok(u));
                    }
                }
                assert(solver.wf());
                assert forall|p: int|
                    0 <= p < i + 1 implies solver.candidates_exact(
                    rws,
                    #[trigger] solver.unfilled_entries@[p],
                ) by {
                    let u = solver.unfilled_entries@[p];
                    if p < i {
                        assert(before.unfilled_entries@[p] == u);
                        assert(before.candidates_exact(rws, u));
                        assert(u != idx) by {
                            assert(solver.unfilled_entries@[p]
                                != solver.unfilled_entries@[i as int]);
                        }
                        assert(pf_get(solver.possible_fills@, u) == pf_get(
                            before.possible_fills@,
                            u,
                        ));
                        assert(solver.grid == before.grid);
                        assert(solver.candidates_exact(rws, u) == before.candidates_exact(
                            rws,
                            u,
                        ));
                    } else {
                        assert(u == idx);
                        assert(solver.candidates_exact(rws, idx));
                    }
                }
            }
            i += 1;
        }
        proof {
            Self::lemma_same_views(base, solver);
            assert(solver.lists_fresh(rws));
            assert forall|idx: EntryIndex| #[trigger]
                solver.unfilled().contains(idx) implies solver.candidates_exact(rws, idx) by {
                let p2 = choose|p2: int|
                    0 <= p2 < solver.unfilled_entries@.len() && (
                    #[trigger] solver.unfilled_entries@[p2]) == idx;
            }
        }
        solver
    }

    /// Recomputes the candidate list for an index from the ranked
    /// dictionary, keeping only candidates whose score reaches the
    /// threshold; unknown indices change nothing.
    fn update_possible_fills_ranked(&mut self, index: EntryIndex)
        requires
            old(self).grid.wf(),
            old(self).dict.wf(),
        ensures
            final(self).grid == old(self).grid,
            final(self).dict == old(self).dict,
            final(self).unfilled_entries@ == old(self).unfilled_entries@,
            final(self).added_words@ == old(self).added_words@,
            final(self).changes@ == old(self).changes@,
            old(self).grid.has_entry(index) ==> final(self).list_ok(index),
            old(self).grid.has_entry(index) ==> final(self).candidates_exact(
                old(self).ranked_words(),
                index,
            ),
            !old(self).grid.has_entry(index) ==> final(self).possible_fills@ == old(
                self,
            ).possible_fills@,
            forall|j: EntryIndex|
                j != index ==> pf_get(final(self).possible_fills@, j) == pf_get(
                    old(self).possible_fills@,
                    j,
                ),
    {
        match self.grid.get_entry(index) {
            Some(entry) => {
                let pattern = Pattern::new(entry.letters.as_slice());
                let fills = self.dict.lookup_range(&pattern, Some(RANK_THRESHOLD), None);
                let ghost pre = *self;
                pf_put(&mut self.possible_fills, index, fills);
                proof {
                    assert(self.grid == pre.grid && self.dict == pre.dict);
                    assert(self.list_ok(index)) by {
                        let lst = pf_get(self.possible_fills@, index)->0;
                        assert forall|p: int|
                            0 <= p < lst.len() implies self.dict.word_set().contains(
                            (#[trigger] lst[p])@,
                        ) && spec_matches(self.grid.entry_letters(index), lst[p]@) by {}
                    }
                    assert(self.candidates_exact(pre.ranked_words(), index)) by {
                        let lst = pf_get(self.possible_fills@, index)->0;
                        assert forall|p: int|
                            0 <= p < lst.len() implies pre.ranked_words().contains(
                            (#[trigger] lst[p])@,
                        ) && spec_matches(self.grid.entry_letters(index), lst[p]@) by {}
                        assert forall|w: Seq<Letter>|
                            #[trigger] pre.ranked_words().contains(w) && spec_matches(
                                self.grid.entry_letters(index),
                                w,
                            ) implies exists|p: int|
                            0 <= p < lst.len() && (#[trigger] lst[p])@ == w by {
                            assert(views_of(fills@).contains(w));
                            let p = choose|p: int|
                                0 <= p < views_of(fills@).len() && views_of(fills@)[p] == w;
                            assert(lst[p]@ == w);
                        }
                    }
                }
            },
            None => {},
        }
    }

    /// Fills an unfilled slot as `fill` does, and then recomputes the
    /// slot's own candidates through the ranked, threshold-bounded lookup.
    pub fn fill_ranked(&mut self, index: EntryIndex, word: &Word)
        requires
            old(self).wf(),
            old(self).unfilled().contains(index),
            word@.len() == old(self).spec_grid().entry_coords(index).len(),
        ensures
            final(self).wf(),
            final(self).spec_dict() == old(self).spec_dict(),
            Self::fill_post(*old(self), *final(self), index, *word),
            old(self).settled() ==> final(self).settled(),
            spec_matches(old(self).spec_grid().entry_letters(index), word@) ==> forall|
                r: int,
                c: int,
            |
                0 <= r < old(self).spec_grid().spec_height() && 0 <= c < old(
                    self,
                ).spec_grid().spec_width() && old(self).spec_grid().letter_at(r, c) is Some
                    ==> #[trigger] final(self).spec_grid().letter_at(r, c) == old(
                    self,
                ).spec_grid().letter_at(r, c),
            forall|j: EntryIndex|
                j == index || final(self).spec_grid().crossing(index, j)
                    ==> #[trigger] final(self).candidates_exact(old(self).ranked_words(), j),
            forall|j: EntryIndex|
                j != index && !final(self).spec_grid().crossing(index, j)
                    ==> #[trigger] final(self).candidates(j) == old(self).candidates(j),
            old(self).lists_fresh(old(self).ranked_words()) ==> final(self).lists_fresh(
                old(self).ranked_words(),
            ),
    {
        let ghost s0 = *self;
        let ghost g0 = self.grid;
        let ghost rws = self.ranked_words();
        let ghost coords = g0.entry_coords(index);
        self.fill(index, word);
        let ghost mid = *self;
        self.update_possible_fills_ranked(index);
        proof {
            Self::lemma_same_ranked(s0, mid);
            assert forall|i: int|
                0 <= i < self.unfilled_entries@.len() implies self.grid.has_entry(
                #[trigger] self.unfilled_entries@[i],
            ) && self.list_ok(self.unfilled_entries@[i]) by {
                let u = self.unfilled_entries@[i];
                assert(mid.unfilled_entries@[i] == u);
                assert(mid.grid.has_entry(u) && mid.list_ok(u));
                assert(mid.unfilled().contains(u));
                assert(u != index) by {
                    assert(mid.unfilled() == old(self).unfilled().remove(index));
                }
                assert(pf_get(self.possible_fills@, u) == pf_get(mid.possible_fills@, u));
                assert(self.list_ok(u) == mid.list_ok(u));
            }
            assert(self.wf());
            Self::lemma_same_views(mid, *self);
            assert(self.candidates_exact(rws, index));
            assert(!self.grid.crossing(index, index));
        }
        let ghost mid2 = *self;
        let perps = self.grid.entries_perp_to(index);
        proof {
            assert(!perps@.contains(index));
        }
        let mut t: usize = 0;
        while t < perps.len()
            invariant
                t <= perps@.len(),
                self.grid == mid2.grid,
                self.dict == mid2.dict,
                self.unfilled_entries@ == mid2.unfilled_entries@,
                self.added_words@ == mid2.added_words@,
                self.changes@ == mid2.changes@,
                self.grid.wf(),
                self.dict.wf(),
                mid2.wf_except_lists(),
                rws == self.ranked_words(),
                self.grid.has_entry(index),
                self.candidates_exact(rws, index),
                !perps@.contains(index),
                forall|j: EntryIndex| #[trigger] perps@.contains(j) <==> mid2.grid.crossing(
                    index,
                    j,
                ),
                forall|j1: int, j2: int|
                    0 <= j1 < j2 < perps@.len() ==> (#[trigger] perps@[j1]) != (
                    #[trigger] perps@[j2]),
                forall|p2: int|
                    0 <= p2 < t ==> self.candidates_exact(rws, #[trigger] perps@[p2]),
                forall|j: EntryIndex|
                    (j != index && (forall|p2: int| 0 <= p2 < t ==> (#[trigger] perps@[p2]) != j))
                        ==> #[trigger] self.candidates(j) == mid2.candidates(j),
                forall|i: int|
                    0 <= i < self.unfilled_entries@.len() ==> self.grid.has_entry(
                        #[trigger] self.unfilled_entries@[i],
                    ) && self.list_ok(self.unfilled_entries@[i]),
            decreases perps@.len() - t,
        {
            let jdx = perps[t];
            proof {
                assert(perps@[t as int] == jdx);
                assert(perps@.contains(jdx));
                assert(self.grid.has_entry(jdx)) by {
                    assert(mid2.grid.crossing(index, jdx));
                }
            }
            let ghost before = *self;
            self.update_possible_fills_ranked(jdx);
            proof {
                Self::lemma_same_ranked(before, *self);
                assert forall|i: int|
                    0 <= i < self.unfilled_entries@.len() implies self.grid.has_entry(
                    #[trigger] self.unfilled_entries@[i],
                ) && self.list_ok(self.unfilled_entries@[i]) by {
                    let u = self.unfilled_entries@[i];
                    assert(before.unfilled_entries@[i] == u);
                    assert(before.grid.has_entry(u) && before.list_ok(u));
                    if u == jdx {
                        assert(self.list_ok(jdx));
                    } else {
                        assert(pf_get(self.possible_fills@, u) == pf_get(
                            before.possible_fills@,
                            u,
                        ));
                        assert(self.list_ok(u) == before.list_ok(u));
                    }
                }
                assert(self.candidates_exact(rws, index) == before.candidates_exact(
                    rws,
                    index,
                )) by {
                    assert(pf_get(self.possible_fills@, index) == pf_get(
                        before.possible_fills@,
                        index,
                    ));
                }
                assert forall|p2: int|
                    0 <= p2 < t + 1 implies self.candidates_exact(
                    rws,
                    #[trigger] perps@[p2],
                ) by {
                    if p2 < t {
                        assert(perps@[p2] != jdx);
                        assert(pf_get(self.possible_fills@, perps@[p2]) == pf_get(
                            before.possible_fills@,
                            perps@[p2],
                        ));
                        assert(self.candidates_exact(rws, perps@[p2]) == before.candidates_exact(
                            rws,
                            perps@[p2],
                        ));
                    } else {
                        assert(self.candidates_exact(rws, jdx));
                    }
                }
                assert forall|j: EntryIndex|
                    (j != index && (forall|p2: int|
                        0 <= p2 < t + 1 ==> (#[trigger] perps@[p2]) != j))
                        implies #[trigger] self.candidates(j) == mid2.candidates(j) by {
                    assert(perps@[t as int] != j);
                    assert(pf_get(self.possible_fills@, j) == pf_get(
                        before.possible_fills@,
                        j,
                    ));
                    assert(before.candidates(j) == mid2.candidates(j));
                }
            }
            t += 1;
        }
        proof {
            assert(self.wf());
            Self::lemma_same_views(mid2, *self);
            assert forall|j: EntryIndex|
                j == index || self.grid.crossing(index, j) implies #[trigger] self
                .candidates_exact(rws, j) by {
                if j != index {
                    assert(perps@.contains(j));
                    let p2 = choose|p2: int| 0 <= p2 < perps@.len() && perps@[p2] == j;
                }
            }
            assert forall|j: EntryIndex|
                j != index && !self.grid.crossing(index, j) implies #[trigger] self.candidates(j)
                == s0.candidates(j) by {
                assert forall|p2: int| 0 <= p2 < perps@.len() implies (#[trigger] perps@[p2])
                    != j by {
                    if perps@[p2] == j {
                        assert(perps@.contains(j));
                    }
                }
                assert(self.candidates(j) == mid2.candidates(j));
                assert(mid2.candidates(j) == mid.candidates(j)) by {
                    assert(pf_get(mid2.possible_fills@, j) == pf_get(mid.possible_fills@, j));
                }
                assert(mid.grid.crossing(index, j) == s0.grid.crossing(index, j));
                assert(mid.candidates(j) == s0.candidates(j));
            }
            if s0.lists_fresh(rws) {
                assert forall|i: int|
                    0 <= i < self.unfilled_entries@.len() implies self.candidates_exact(
                    rws,
                    #[trigger] self.unfilled_entries@[i],
                ) by {
                    let u = self.unfilled_entries@[i];
                    assert(mid.unfilled_entries@[i] == u);
                    assert(mid.unfilled().contains(u));
                    assert(u != index) by {
                        assert(mid.unfilled() == s0.unfilled().remove(index));
                    }
                    assert(s0.unfilled().contains(u));
                    let oj = choose|oj: int|
                        0 <= oj < s0.unfilled_entries@.len() && (
                        #[trigger] s0.unfilled_entries@[oj]) == u;
                    assert(s0.candidates_exact(rws, u));
                    if self.grid.crossing(index, u) {
                        assert(self.candidates_exact(rws, u));
                    } else {
                        assert(self.candidates(u) == s0.candidates(u));
                        assert(s0.grid.has_entry(u));
                        assert(!g0.crossing(index, u)) by {
                            assert(self.grid.crossing(index, u) == mid2.grid.crossing(index, u));
                            assert(mid2.grid.crossing(index, u) == g0.crossing(index, u));
                        }
                        assert forall|p3: int, q3: int|
                            0 <= p3 < g0.entry_coords(u).len() && 0 <= q3
                                < coords.len() implies (#[trigger] g0.entry_coords(u)[p3]) != (
                        #[trigger] coords[q3]) by {
                            if g0.entry_coords(u)[p3] == coords[q3] {
                                assert(g0.crossing(index, u));
                            }
                        }
                        assert(self.grid.spec_width() == g0.spec_width());
                        assert(self.grid.spec_height() == g0.spec_height());
                        assert(self.grid.entry_coords(u) == g0.entry_coords(u));
                        assert forall|r2: int, c2: int|
                            0 <= r2 < g0.spec_height() && 0 <= c2 < g0.spec_width()
                                && !writes_upto(coords, coords.len() as int, r2, c2)
                                implies #[trigger] self.grid.spec_cell(r2, c2) == g0.spec_cell(
                            r2,
                            c2,
                        ) by {
                            assert(mid.grid.spec_cell(r2, c2) == g0.spec_cell(r2, c2));
                        }
                        Grid::lemma_untouched_letters(
                            g0,
                            self.grid,
                            u,
                            coords,
                            coords.len() as int,
                        );
                        assert(self.grid.entry_letters(u) == g0.entry_letters(u));
                        assert(self.candidates_exact(rws, u) == s0.candidates_exact(rws, u));
                    }
                }
            }
        }
    }

    /// Undoes the most recent fill as `undo_last_fill` does, and then
    /// recomputes the candidates of the slot and of every crossing slot
    /// through the ranked, threshold-bounded lookup.
    pub fn undo_last_fill_ranked(&mut self)
        requires
            old(self).wf(),
        ensures
            final(self).wf(),
            final(self).spec_dict() == old(self).spec_dict(),
            old(self).change_count() == 0 ==> *final(self) == *old(self),
            old(self).change_count() > 0 ==> Self::undo_post(*old(self), *final(self)),
            old(self).change_count() > 0 ==> ({
                let t0 = old(self).changes_view().last().0;
                &&& forall|j: EntryIndex|
                    j == t0 || final(self).spec_grid().crossing(t0, j)
                        ==> #[trigger] final(self).candidates_exact(old(self).ranked_words(), j)
                &&& forall|j: EntryIndex|
                    j != t0 && !final(self).spec_grid().crossing(t0, j)
                        ==> #[trigger] final(self).candidates(j) == old(self).candidates(j)
                &&& old(self).lists_fresh(old(self).ranked_words()) ==> final(self).lists_fresh(
                    old(self).ranked_words(),
                )
            }),
    {
        if self.changes.len() == 0 {
            return ;
        }
        let ghost s0 = *self;
        let ghost g0 = self.grid;
        let ghost rws = self.ranked_words();
        let index = self.changes[self.changes.len() - 1].0;
        proof {
            assert(index == s0.changes_view().last().0);
            assert(self.grid.has_entry(index));
        }
        let ghost coords = g0.entry_coords(index);
        self.undo_last_fill();
        let ghost mid0 = *self;
        self.update_possible_fills_ranked(index);
        proof {
            Self::lemma_same_ranked(s0, mid0);
            assert forall|i: int|
                0 <= i < self.unfilled_entries@.len() implies self.grid.has_entry(
                #[trigger] self.unfilled_entries@[i],
            ) && self.list_ok(self.unfilled_entries@[i]) by {
                let u = self.unfilled_entries@[i];
                assert(mid0.unfilled_entries@[i] == u);
                assert(mid0.grid.has_entry(u) && mid0.list_ok(u));
                if u == index {
                    assert(self.list_ok(index));
                } else {
                    assert(pf_get(self.possible_fills@, u) == pf_get(mid0.possible_fills@, u));
                    assert(self.list_ok(u) == mid0.list_ok(u));
                }
            }
            assert(self.wf());
            Self::lemma_same_views(mid0, *self);
            assert(self.candidates_exact(rws, index));
            assert(!self.grid.crossing(index, index));
        }
        let ghost mid = *self;
        let perps = self.grid.entries_perp_to(index);
        proof {
            assert(!perps@.contains(index));
        }
        let mut t: usize = 0;
        while t < perps.len()
            invariant
                t <= perps@.len(),
                self.grid == mid.grid,
                self.dict == mid.dict,
                self.unfilled_entries@ == mid.unfilled_entries@,
                self.added_words@ == mid.added_words@,
                self.changes@ == mid.changes@,
                self.grid.wf(),
                self.dict.wf(),
                mid.wf_except_lists(),
                rws == self.ranked_words(),
                self.grid.has_entry(index),
                self.candidates_exact(rws, index),
                !perps@.contains(index),
                forall|j: EntryIndex| #[trigger] perps@.contains(j) <==> mid.grid.crossing(
                    index,
                    j,
                ),
                forall|j1: int, j2: int|
                    0 <= j1 < j2 < perps@.len() ==> (#[trigger] perps@[j1]) != (
                    #[trigger] perps@[j2]),
                forall|p2: int|
                    0 <= p2 < t ==> self.candidates_exact(rws, #[trigger] perps@[p2]),
                forall|j: EntryIndex|
                    (j != index && (forall|p2: int| 0 <= p2 < t ==> (#[trigger] perps@[p2]) != j))
                        ==> #[trigger] self.candidates(j) == mid.candidates(j),
                forall|i: int|
                    0 <= i < self.unfilled_entries@.len() ==> self.grid.has_entry(
                        #[trigger] self.unfilled_entries@[i],
                    ) && self.list_ok(self.unfilled_entries@[i]),
            decreases perps@.len() - t,
        {
            let jdx = perps[t];
            proof {
                assert(perps@[t as int] == jdx);
                assert(perps@.contains(jdx));
                assert(self.grid.has_entry(jdx)) by {
                    assert(mid.grid.crossing(index, jdx));
                }
            }
            let ghost before = *self;
            self.update_possible_fills_ranked(jdx);
            proof {
                Self::lemma_same_ranked(before, *self);
                assert forall|i: int|
                    0 <= i < self.unfilled_entries@.len() implies self.grid.has_entry(
                    #[trigger] self.unfilled_entries@[i],
                ) && self.list_ok(self.unfilled_entries@[i]) by {
                    let u = self.unfilled_entries@[i];
                    assert(before.unfilled_entries@[i] == u);
                    assert(before.grid.has_entry(u) && before.list_ok(u));
                    if u == jdx {
                        assert(self.list_ok(jdx));
                    } else {
                        assert(pf_get(self.possible_fills@, u) == pf_get(
                            before.possible_fills@,
                            u,
                        ));
                        assert(self.list_ok(u) == before.list_ok(u));
                    }
                }
                assert(self.candidates_exact(rws, index) == before.candidates_exact(
                    rws,
                    index,
                )) by {
                    assert(pf_get(self.possible_fills@, index) == pf_get(
                        before.possible_fills@,
                        index,
                    ));
                }
                assert forall|p2: int|
                    0 <= p2 < t + 1 implies self.candidates_exact(
                    rws,
                    #[trigger] perps@[p2],
                ) by {
                    if p2 < t {
                        assert(perps@[p2] != jdx);
                        assert(pf_get(self.possible_fills@, perps@[p2]) == pf_get(
                            before.possible_fills@,
                            perps@[p2],
                        ));
                        assert(self.candidates_exact(rws, perps@[p2]) == before.candidates_exact(
                            rws,
                            perps@[p2],
                        ));
                    } else {
                        assert(self.candidates_exact(rws, jdx));
                    }
                }
                assert forall|j: EntryIndex|
                    (j != index && (forall|p2: int|
                        0 <= p2 < t + 1 ==> (#[trigger] perps@[p2]) != j))
                        implies #[trigger] self.candidates(j) == mid.candidates(j) by {
                    assert(perps@[t as int] != j);
                    assert(pf_get(self.possible_fills@, j) == pf_get(
                        before.possible_fills@,
                        j,
                    ));
                    assert(before.candidates(j) == mid.candidates(j));
                }
            }
            t += 1;
        }
        proof {
            assert(self.wf());
            Self::lemma_same_views(mid, *self);
            assert(Self::undo_post(s0, *self));
            assert forall|j: EntryIndex|
                j == index || self.grid.crossing(index, j) implies #[trigger] self
                .candidates_exact(rws, j) by {
                if j != index {
                    assert(perps@.contains(j));
                    let p2 = choose|p2: int| 0 <= p2 < perps@.len() && perps@[p2] == j;
                }
            }
            assert forall|j: EntryIndex|
                j != index && !self.grid.crossing(index, j) implies #[trigger] self.candidates(j)
                == s0.candidates(j) by {
                assert forall|p2: int| 0 <= p2 < perps@.len() implies (#[trigger] perps@[p2])
                    != j by {
                    if perps@[p2] == j {
                        assert(perps@.contains(j));
                    }
                }
                assert(self.candidates(j) == mid.candidates(j));
                assert(mid.candidates(j) == mid0.candidates(j)) by {
                    assert(pf_get(mid.possible_fills@, j) == pf_get(mid0.possible_fills@, j));
                }
                assert(mid0.grid.crossing(index, j) == s0.grid.crossing(index, j));
                assert(mid0.candidates(j) == s0.candidates(j));
            }
            if s0.lists_fresh(rws) {
                assert forall|i: int|
                    0 <= i < self.unfilled_entries@.len() implies self.candidates_exact(
                    rws,
                    #[trigger] self.unfilled_entries@[i],
                ) by {
                    let u = self.unfilled_entries@[i];
                    if u == index {
                        assert(self.candidates_exact(rws, index));
                    } else if self.grid.crossing(index, u) {
                        assert(self.candidates_exact(rws, u));
                    } else {
                        assert(mid0.unfilled_entries@[i] == u);
                        assert(mid0.unfilled().contains(u));
                        assert(s0.unfilled().contains(u)) by {
                            assert(mid0.unfilled() == s0.unfilled().insert(index));
                        }
                        let oj = choose|oj: int|
                            0 <= oj < s0.unfilled_entries@.len() && (
                            #[trigger] s0.unfilled_entries@[oj]) == u;
                        assert(s0.candidates_exact(rws, u));
                        assert(self.candidates(u) == s0.candidates(u));
                        assert(s0.grid.has_entry(u));
                        assert(!g0.crossing(index, u)) by {
                            assert(self.grid.crossing(index, u) == mid.grid.crossing(index, u));
                            assert(mid.grid.crossing(index, u) == g0.crossing(index, u));
                        }
                        assert forall|p3: int, q3: int|
                            0 <= p3 < g0.entry_coords(u).len() && 0 <= q3
                                < coords.len() implies (#[trigger] g0.entry_coords(u)[p3]) != (
                        #[trigger] coords[q3]) by {
                            if g0.entry_coords(u)[p3] == coords[q3] {
                                assert(g0.crossing(index, u));
                            }
                        }
                        assert(self.grid.spec_width() == g0.spec_width());
                        assert(self.grid.spec_height() == g0.spec_height());
                        assert(self.grid.entry_coords(u) == g0.entry_coords(u));
                        assert forall|r2: int, c2: int|
                            0 <= r2 < g0.spec_height() && 0 <= c2 < g0.spec_width()
                                && !writes_upto(coords, coords.len() as int, r2, c2)
                                implies #[trigger] self.grid.spec_cell(r2, c2) == g0.spec_cell(
                            r2,
                            c2,
                        ) by {
                            assert(mid0.grid.spec_cell(r2, c2) == g0.spec_cell(r2, c2));
                        }
                        Grid::lemma_untouched_letters(
                            g0,
                            self.grid,
                            u,
                            coords,
                            coords.len() as int,
                        );
                        assert(self.grid.entry_letters(u) == g0.entry_letters(u));
                        assert(self.candidates_exact(rws, u) == s0.candidates_exact(rws, u));
                    }
                }
            }
        }
    }

    /// Fills the whole grid by the same bounded, most-constrained-first
    /// search as `solve`, but over the ranked, threshold-bounded word set:
    /// candidates come from `lookup_range` with the fixed lower threshold,
    /// and the prefix of at most five is taken in the order the lookup
    /// returned, without shuffling.  Build the solver with `new_ranked`, so
    /// that the candidate lists start from that set as well.
    pub fn solve_ranked(&mut self) -> (r: bool)
        requires
            old(self).wf(),
            old(self).settled(),
            old(self).lists_fresh(old(self).ranked_words()),
        ensures
            final(self).wf(),
            final(self).settled(),
            final(self).spec_dict() == old(self).spec_dict(),
            final(self).lists_fresh(old(self).ranked_words()),
            topology_preserved(old(self).spec_grid(), final(self).spec_grid()),
            final(self).dict_words() == old(self).dict_words(),
            forall|idx: EntryIndex|
                #![trigger old(self).spec_grid().entry_letters(idx)]
                (old(self).unfilled() == set![idx] && (exists|w: Seq<Letter>| #[trigger]
                    old(self).ranked_words().contains(w) && spec_matches(
                        old(self).spec_grid().entry_letters(idx),
                        w,
                    ))) ==> r,
            forall|idx: EntryIndex|
                #![trigger old(self).unfilled().contains(idx)]
                (old(self).unfilled().contains(idx) && (forall|w: Seq<Letter>| #[trigger]
                    old(self).ranked_words().contains(w) ==> !spec_matches(
                        old(self).spec_grid().entry_letters(idx),
                        w,
                    ))) ==> !r,
            forall|idx: EntryIndex|
                #![trigger old(self).candidates(idx)]
                (old(self).unfilled().contains(idx) && old(self).candidates(idx) == Some(
                    Seq::<Word>::empty(),
                )) ==> !r,
            r ==> final(self).unfilled().is_empty(),
            r ==> forall|idx: EntryIndex| #[trigger]
                final(self).spec_grid().has_entry(idx) ==> final(self).spec_grid().entry_filled(
                    idx,
                ),
            r ==> forall|r2: int, c2: int|
                0 <= r2 < old(self).spec_grid().spec_height() && 0 <= c2 < old(
                    self,
                ).spec_grid().spec_width() && old(self).spec_grid().letter_at(r2, c2) is Some
                    ==> #[trigger] final(self).spec_grid().letter_at(r2, c2) == old(
                    self,
                ).spec_grid().letter_at(r2, c2),
            r ==> forall|idx: EntryIndex| #[trigger]
                old(self).unfilled().contains(idx) ==> old(self).ranked_words().contains(
                    word_of(final(self).spec_grid().entry_letters(idx)),
                ),
            r ==> forall|idx: EntryIndex| #[trigger]
                old(self).unfilled().contains(idx) ==> final(self).dict_words().contains(
                    word_of(final(self).spec_grid().entry_letters(idx)),
                ),
            old(self).unfilled().is_empty() ==> r && *final(self) == *old(self),
            !r ==> ({
                &&& forall|r2: int, c2: int|
                    0 <= r2 < old(self).spec_grid().spec_height() && 0 <= c2 < old(
                        self,
                    ).spec_grid().spec_width() ==> #[trigger] final(self).spec_grid().spec_cell(
                        r2,
                        c2,
                    ) == old(self).spec_grid().spec_cell(r2, c2)
                &&& final(self).unfilled() == old(self).unfilled()
                &&& final(self).unfilled_len() == old(self).unfilled_len()
                &&& final(self).changes_view() == old(self).changes_view()
                &&& final(self).added().subset_of(old(self).added())
            }),
        decreases old(self).unfilled_len(),
    {
        let ghost rws = self.ranked_words();
        if self.unfilled_entries.len() == 0 {
            proof {
                assert(self.unfilled().is_empty()) by {
                    assert forall|idx: EntryIndex| !self.unfilled().contains(idx) by {
                        if self.unfilled().contains(idx) {
                            let i = choose|i: int|
                                0 <= i < self.unfilled_entries@.len() && (
                                #[trigger] self.unfilled_entries@[i]) == idx;
                        }
                    }
                    assert(self.unfilled() =~= Set::<EntryIndex>::empty());
                }
                assert forall|idx: EntryIndex|
                    #![trigger self.spec_grid().entry_letters(idx)]
                    !(self.unfilled() == set![idx]) by {
                    if self.unfilled() == set![idx] {
                        assert(set![idx].contains(idx));
                    }
                }
            }
            return true;
        }
        proof {
            assert(self.unfilled().contains(self.unfilled_entries@[0]));
            assert(!old(self).unfilled().is_empty());
        }
        let most = self.most_constrained();
        let ghost s0 = *self;
        let k = match self.pf_find(most) {
            Some(k) => k,
            None => {
                proof {
                    let i = choose|i: int|
                        0 <= i < self.unfilled_entries@.len() && (
                        #[trigger] self.unfilled_entries@[i]) == most;
                    assert(self.list_ok(most));
                    assert(false);
                }
                0
            },
        };
        let mut poss = clone_words(&self.possible_fills[k].1);
        proof {
            let i = choose|i: int|
                0 <= i < self.unfilled_entries@.len() && (#[trigger] self.unfilled_entries@[i])
                    == most;
            assert(self.candidates_exact(rws, most));
            assert forall|j: int|
                0 <= j < poss@.len() implies s0.ranked_words().contains((#[trigger] poss@[j])@)
                && s0.dict_words().contains(poss@[j]@) && spec_matches(
                s0.spec_grid().entry_letters(most),
                poss@[j]@,
            ) by {
                let lst = pf_get(self.possible_fills@, most)->0;
                assert(poss@[j]@ == lst[j]@);
                assert(rws.contains(lst[j]@));
            }
        }
        if poss.len() == 0 {
            proof {
                // With complete candidate lists, an empty list at the chosen
                // slot means no acceptable word fits it at all.
                assert forall|idx: EntryIndex|
                    #![trigger s0.spec_grid().entry_letters(idx)]
                    !(s0.unfilled() == set![idx] && (exists|w: Seq<Letter>| #[trigger]
                        s0.ranked_words().contains(w) && spec_matches(
                            s0.spec_grid().entry_letters(idx),
                            w,
                        ))) by {
                    if s0.unfilled() == set![idx] && (exists|w: Seq<Letter>| #[trigger]
                        s0.ranked_words().contains(w) && spec_matches(
                            s0.spec_grid().entry_letters(idx),
                            w,
                        )) {
                        assert(set![idx].contains(most));
                        assert(most == idx);
                        let w = choose|w: Seq<Letter>|
                            #[trigger] s0.ranked_words().contains(w) && spec_matches(
                                s0.spec_grid().entry_letters(idx),
                                w,
                            );
                        let lst = pf_get(s0.possible_fills@, most)->0;
                        assert(exists|p: int| 0 <= p < lst.len() && (#[trigger] lst[p])@ == w);
                        assert(lst.len() > 0);
                        assert(poss@.len() == lst.len());
                        assert(false);
                    }
                }
            }
            return false;
        }
        if poss.len() > 5 {
            let ghost wide = poss@;
            poss.truncate(5);
            proof {
                assert forall|j: int|
                    0 <= j < poss@.len() implies s0.ranked_words().contains(
                    (#[trigger] poss@[j])@,
                ) && s0.dict_words().contains(poss@[j]@) && spec_matches(
                    s0.spec_grid().entry_letters(most),
                    poss@[j]@,
                ) by {
                    assert(poss@[j] == wide[j]);
                }
            }
        }
        let mut t: usize = 0;
        while t < poss.len()
            invariant
                self.wf(),
                self.settled(),
                s0 == *old(self),
                s0.wf(),
                s0.settled(),
                s0.unfilled().contains(most),
                topology_preserved(s0.spec_grid(), self.spec_grid()),
                self.dict_words() == s0.dict_words(),
                self.dict == s0.dict,
                rws == s0.ranked_words(),
                s0.lists_fresh(rws),
                self.lists_fresh(rws),
                t <= poss@.len(),
                poss@.len() > 0,
                forall|j: int|
                    0 <= j < poss@.len() ==> s0.ranked_words().contains((#[trigger] poss@[j])@)
                        && s0.dict_words().contains(poss@[j]@) && spec_matches(
                        s0.spec_grid().entry_letters(most),
                        poss@[j]@,
                    ),
                forall|r2: int, c2: int|
                    0 <= r2 < s0.spec_grid().spec_height() && 0 <= c2 < s0.spec_grid().spec_width()
                        ==> #[trigger] self.spec_grid().spec_cell(r2, c2)
                        == s0.spec_grid().spec_cell(r2, c2),
                self.unfilled() == s0.unfilled(),
                self.unfilled_len() == s0.unfilled_len(),
                self.changes_view() == s0.changes_view(),
                self.added().subset_of(s0.added()),
                t > 0 ==> forall|idx: EntryIndex|
                    #![trigger s0.spec_grid().entry_letters(idx)]
                    s0.unfilled() == set![idx] ==> (forall|w: Seq<Letter>| #[trigger]
                        s0.ranked_words().contains(w) ==> !spec_matches(
                            s0.spec_grid().entry_letters(idx),
                            w,
                        )),
            decreases poss@.len() - t,
        {
            let ghost before = *self;
            let ghost g0 = s0.spec_grid();
            let ghost coords = g0.entry_coords(most);
            proof {
                let i = choose|i: int|
                    0 <= i < s0.unfilled_entries@.len() && (#[trigger] s0.unfilled_entries@[i])
                        == most;
                assert(g0.has_entry(most));
                assert(spec_matches(g0.entry_letters(most), poss@[t as int]@));
                assert(poss@[t as int]@.len() == g0.entry_letters(most).len());
                assert(g0.entry_letters(most).len() == coords.len());
                assert(self.spec_grid().entry_coords(most) == coords);
                Grid::lemma_equal_cells_letters(g0, self.spec_grid(), most);
                assert(self.spec_grid().entry_letters(most) == g0.entry_letters(most));
                assert(spec_matches(
                    self.spec_grid().entry_letters(most),
                    poss@[t as int]@,
                ));
                Self::lemma_same_ranked(s0, *self);
            }
            self.fill_ranked(most, &poss[t]);
            let ghost after_fill = *self;
            proof {
                Self::lemma_same_ranked(before, after_fill);
            }
            let solved = self.solve_ranked();
            if solved {
                proof {
                    lemma_topology_trans(
                        before.spec_grid(),
                        after_fill.spec_grid(),
                        self.spec_grid(),
                    );
                    lemma_topology_trans(
                        s0.spec_grid(),
                        before.spec_grid(),
                        self.spec_grid(),
                    );
                    Self::lemma_same_ranked(after_fill, *self);
                    let bg = before.spec_grid();
                    let fg = after_fill.spec_grid();
                    let ng = self.spec_grid();
                    let word = poss@[t as int];
                    g0.lemma_entry_coords_ok(most);
                    // Letters present at the start are never overwritten:
                    // every word is placed over a matching pattern.
                    assert forall|r2: int, c2: int|
                        0 <= r2 < g0.spec_height() && 0 <= c2 < g0.spec_width() && g0.letter_at(
                            r2,
                            c2,
                        ) is Some implies #[trigger] ng.letter_at(r2, c2) == g0.letter_at(
                        r2,
                        c2,
                    ) by {
                        assert(bg.spec_cell(r2, c2) == g0.spec_cell(r2, c2));
                        assert(bg.letter_at(r2, c2) == g0.letter_at(r2, c2));
                        assert(fg.letter_at(r2, c2) == bg.letter_at(r2, c2));
                        assert(ng.letter_at(r2, c2) == fg.letter_at(r2, c2));
                    }
                    // Every slot filled during this attempt holds a word
                    // from the thresholded set.
                    assert(ng.entry_coords(most) == coords);
                    assert forall|idx: EntryIndex| #[trigger]
                        s0.unfilled().contains(idx) implies s0.ranked_words().contains(
                        word_of(ng.entry_letters(idx)),
                    ) && self.dict_words().contains(word_of(ng.entry_letters(idx))) by {
                        if idx == most {
                            assert forall|q: int|
                                0 <= q < coords.len() implies #[trigger] ng.entry_letters(
                                most,
                            )[q] == Some(word@[q]) by {
                                let r2 = coords[q].row as int;
                                let c2 = coords[q].col as int;
                                assert(fg.letter_at(r2, c2) == Some(word@[q]));
                                assert(ng.letter_at(r2, c2) == fg.letter_at(r2, c2));
                                assert(ng.entry_letters(most)[q] == ng.letter_at(r2, c2));
                            }
                            assert(word_of(ng.entry_letters(most)) =~= word@);
                            assert(s0.ranked_words().contains(word@));
                            assert(s0.dict_words().contains(word@));
                        } else {
                            assert(after_fill.unfilled().contains(idx)) by {
                                assert(before.unfilled().contains(idx));
                            }
                            assert(after_fill.ranked_words().contains(
                                word_of(ng.entry_letters(idx)),
                            ));
                            assert(s0.ranked_words().contains(word_of(ng.entry_letters(idx))));
                            assert(s0.dict_words().contains(word_of(ng.entry_letters(idx))));
                        }
                    }
                    // Every slot that was unfilled at entry therefore fits
                    // some acceptable word, which refutes the failure
                    // clauses.
                    assert forall|idx: EntryIndex| #[trigger]
                        s0.unfilled().contains(idx) implies exists|w: Seq<Letter>| #[trigger]
                        s0.ranked_words().contains(w) && spec_matches(
                            g0.entry_letters(idx),
                            w,
                        ) by {
                        let w = word_of(ng.entry_letters(idx));
                        assert(s0.ranked_words().contains(w));
                        let i2 = choose|i2: int|
                            0 <= i2 < s0.unfilled_entries@.len() && (
                            #[trigger] s0.unfilled_entries@[i2]) == idx;
                        assert(g0.has_entry(idx));
                        g0.lemma_entry_coords_ok(idx);
                        let jcoords = g0.entry_coords(idx);
                        assert(ng.entry_coords(idx) == jcoords);
                        assert(spec_matches(g0.entry_letters(idx), w)) by {
                            assert(w.len() == ng.entry_letters(idx).len());
                            assert(ng.entry_letters(idx).len() == jcoords.len());
                            assert(g0.entry_letters(idx).len() == jcoords.len());
                            assert forall|q: int|
                                0 <= q < jcoords.len() implies match #[trigger] g0.entry_letters(
                                idx,
                            )[q] {
                                Some(l) => l == w[q],
                                None => true,
                            } by {
                                let r2 = jcoords[q].row as int;
                                let c2 = jcoords[q].col as int;
                                if g0.entry_letters(idx)[q] is Some {
                                    assert(g0.entry_letters(idx)[q] == g0.letter_at(r2, c2));
                                    assert(g0.white(r2, c2));
                                    assert(ng.letter_at(r2, c2) == g0.letter_at(r2, c2));
                                    assert(ng.entry_letters(idx)[q] == ng.letter_at(r2, c2));
                                    assert(w[q] == ng.entry_letters(idx)[q]->0);
                                }
                            }
                        }
                    }
                    assert forall|idx: EntryIndex|
                        #![trigger s0.unfilled().contains(idx)]
                        !(s0.unfilled().contains(idx) && (forall|w: Seq<Letter>| #[trigger]
                            s0.ranked_words().contains(w) ==> !spec_matches(
                                g0.entry_letters(idx),
                                w,
                            ))) by {
                        if s0.unfilled().contains(idx) {
                            let w = choose|w: Seq<Letter>|
                                #[trigger] s0.ranked_words().contains(w) && spec_matches(
                                    g0.entry_letters(idx),
                                    w,
                                );
                        }
                    }
                    assert forall|idx: EntryIndex|
                        #![trigger s0.candidates(idx)]
                        !(s0.unfilled().contains(idx) && s0.candidates(idx) == Some(
                            Seq::<Word>::empty(),
                        )) by {
                        if s0.unfilled().contains(idx) && s0.candidates(idx) == Some(
                            Seq::<Word>::empty(),
                        ) {
                            let i2 = choose|i2: int|
                                0 <= i2 < s0.unfilled_entries@.len() && (
                                #[trigger] s0.unfilled_entries@[i2]) == idx;
                            assert(s0.candidates_exact(rws, idx));
                            let w = choose|w: Seq<Letter>|
                                #[trigger] s0.ranked_words().contains(w) && spec_matches(
                                    g0.entry_letters(idx),
                                    w,
                                );
                            let lst = pf_get(s0.possible_fills@, idx)->0;
                            assert(exists|p: int|
                                0 <= p < lst.len() && (#[trigger] lst[p])@ == w);
                            assert(false);
                        }
                    }
                }
                return true;
            }
            let ghost after_rec = *self;
            self.undo_last_fill_ranked();
            proof {
                let word = poss@[t as int];
                Self::lemma_same_ranked(after_fill, after_rec);
                Self::lemma_same_ranked(after_rec, *self);
                assert(after_fill.changes_view() == before.changes_view().push(
                    (most, word@, before.spec_grid().entry_letters(most)),
                ));
                assert(after_fill.changes_view().len() == before.changes_view().len() + 1);
                assert(after_fill.change_count() == after_fill.changes_view().len());
                assert(after_fill.change_count() > 0);
                assert(after_rec.changes_view() == after_fill.changes_view());
                assert(after_rec.changes_view().last() == (
                    most,
                    word@,
                    before.spec_grid().entry_letters(most),
                ));
                assert(Self::undo_post(after_rec, *self));
                assert(self.changes_view() =~= before.changes_view());
                assert(self.unfilled() =~= before.unfilled()) by {
                    assert(after_rec.unfilled() == before.unfilled().remove(most));
                }
                assert(!after_rec.unfilled().contains(most));
                assert(self.unfilled_len() == before.unfilled_len());
                assert forall|s2: Seq<Letter>| #[trigger]
                    self.added().contains(s2) implies s0.added().contains(s2) by {
                    assert(after_rec.added().contains(s2) && s2 != word@);
                    assert(after_fill.added().contains(s2));
                    assert(before.added().insert(word@).contains(s2));
                    assert(before.added().contains(s2));
                }
                let bg = before.spec_grid();
                let fg = after_fill.spec_grid();
                let rg = after_rec.spec_grid();
                let ng = self.spec_grid();
                assert(bg.has_entry(most));
                assert(bg.entry_coords(most) == coords);
                assert(fg.entry_coords(most) == coords);
                assert(rg.entry_coords(most) == coords);
                g0.lemma_entry_coords_ok(most);
                assert forall|r2: int, c2: int|
                    0 <= r2 < g0.spec_height() && 0 <= c2 < g0.spec_width() implies #[trigger] ng
                    .spec_cell(r2, c2) == g0.spec_cell(r2, c2) by {
                    if writes_upto(coords, coords.len() as int, r2, c2) {
                        let q = choose|q: int|
                            0 <= q < coords.len() && (#[trigger] coords[q]).row == r2
                                && coords[q].col == c2;
                        assert(g0.white(coords[q].row as int, coords[q].col as int));
                        assert(g0.white(r2, c2));
                        assert(ng.letter_at(r2, c2) == bg.entry_letters(most)[q]);
                        assert(bg.entry_letters(most)[q] == bg.letter_at(r2, c2));
                        assert(bg.letter_at(r2, c2) == cell_letter(bg.spec_cell(r2, c2)));
                        assert(ng.letter_at(r2, c2) == cell_letter(ng.spec_cell(r2, c2)));
                        assert(bg.white(r2, c2));
                        assert(ng.white(r2, c2));
                        assert(cell_white(ng.spec_cell(r2, c2)));
                        assert(cell_white(bg.spec_cell(r2, c2)));
                        assert(ng.spec_cell(r2, c2) == Cell::White(
                            cell_letter(ng.spec_cell(r2, c2)),
                        ));
                        assert(bg.spec_cell(r2, c2) == Cell::White(
                            cell_letter(bg.spec_cell(r2, c2)),
                        ));
                        assert(bg.spec_cell(r2, c2) == g0.spec_cell(r2, c2));
                    } else {
                        assert(ng.spec_cell(r2, c2) == rg.spec_cell(r2, c2));
                        assert(rg.spec_cell(r2, c2) == fg.spec_cell(r2, c2));
                        assert(fg.spec_cell(r2, c2) == bg.spec_cell(r2, c2));
                        assert(bg.spec_cell(r2, c2) == g0.spec_cell(r2, c2));
                    }
                }
                lemma_topology_trans(g0, bg, fg);
                lemma_topology_trans(g0, fg, rg);
                lemma_topology_trans(g0, rg, ng);
                assert(self.settled()) by {
                    assert forall|idx: EntryIndex|
                        ng.has_entry(idx) && !self.unfilled().contains(
                            idx,
                        ) implies #[trigger] ng.entry_filled(idx) by {
                        assert(g0.has_entry(idx));
                        assert(!s0.unfilled().contains(idx));
                        assert(g0.entry_filled(idx));
                        Grid::lemma_equal_cells_letters(g0, ng, idx);
                        assert(ng.entry_letters(idx) == g0.entry_letters(idx));
                        assert forall|q2: int|
                            0 <= q2 < ng.entry_letters(idx).len() implies (
                        #[trigger] ng.entry_letters(idx)[q2]) is Some by {
                            assert(g0.entry_letters(idx)[q2] is Some);
                        }
                    }
                }
                // Had there been a single unfilled slot with a fitting
                // word, this iteration would have succeeded.
                assert forall|idx: EntryIndex|
                    #![trigger s0.spec_grid().entry_letters(idx)]
                    s0.unfilled() == set![idx] implies (forall|w: Seq<Letter>| #[trigger]
                    s0.ranked_words().contains(w) ==> !spec_matches(
                        s0.spec_grid().entry_letters(idx),
                        w,
                    )) by {
                    if s0.unfilled() == set![idx] {
                        assert forall|w: Seq<Letter>| #[trigger]
                            s0.ranked_words().contains(w) implies !spec_matches(
                            g0.entry_letters(idx),
                            w,
                        ) by {
                            if spec_matches(g0.entry_letters(idx), w) {
                                assert(set![idx].contains(most));
                                assert(most == idx);
                                assert(after_fill.unfilled() =~= Set::<EntryIndex>::empty()) by {
                                    assert(after_fill.unfilled() == before.unfilled().remove(
                                        most,
                                    ));
                                    assert(before.unfilled() == s0.unfilled());
                                }
                                assert(after_fill.unfilled().is_empty());
                                assert(solved);
                                assert(false);
                            }
                        }
                    }
                }
            }
            t += 1;
        }
        false
    }


    /// The sum of the scores of the placed words over the first n of them,
    /// a word the dictionary no longer holds counting zero.
    pub closed spec fn scores_prefix(&self, n: int) -> int
        decreases n,
    {
        if n <= 0 {
            0
        } else {
            self.scores_prefix(n - 1) + (if self.dict_words().contains(self.added_seq()[n - 1]@) {
                self.dict.score_of(self.added_seq()[n - 1]@) as int
            } else {
                0
            })
        }
    }

    /// The sum of the recorded scores of every placed word; a word the
    /// dictionary does not hold counts zero.  Dividing by the number of
    /// placed words gives the average score of the fill.
    pub fn score_sum(&self) -> (r: i128)
        requires
            self.wf(),
        ensures
            r == self.scores_prefix(self.added_seq().len() as int),
    {
        let mut sum: i128 = 0;
        let mut i: usize = 0;
        while i < self.added_words.len()
            invariant
                self.wf(),
                i <= self.added_seq().len(),
                sum == self.scores_prefix(i as int),
                -(i as int) * 2147483648 <= sum <= (i as int) * 2147483648,
            decreases self.added_seq().len() - i,
        {
            proof {
                assert((i as int + 1) * 2147483648 == (i as int) * 2147483648 + 2147483648)
                    by (nonlinear_arith);
                assert((i as int + 1) * 2147483648 <= 0x8000_0000_0000_0000_0000_0000i128)
                    by (nonlinear_arith)
                    requires
                        0 <= i as int + 1 <= 0x1_0000_0000_0000_0000i128,
                ;
            }
            match self.dict.get_score(&self.added_words[i]) {
                Some(x) => {
                    sum = sum + (x as i128);
                },
                None => {},
            }
            i += 1;
        }
        sum
    }
}

/// Law: a coordinate that begins both an across run and a down run of
/// length at least three is assigned one crossword number, shared by the
/// across entry and the down entry that start there.
pub proof fn lemma_shared_start_number(g: &Grid, r: int, c: int)
    requires
        g.wf(),
        g.across_start(r, c),
        g.down_start(r, c),
    ensures
        g.start_num(r, c) >= 1,
        g.has_entry(EntryIndex { num: g.start_num(r, c) as u32, dir: EntryDir::Across }),
        g.has_entry(EntryIndex { num: g.start_num(r, c) as u32, dir: EntryDir::Down }),
{
    let e1 = choose|e: int| g.entries@[e].0.dir == EntryDir::Across && g.slot_is(e, r, c);
    let e2 = choose|e: int| g.entries@[e].0.dir == EntryDir::Down && g.slot_is(e, r, c);
    assert(g.entries@[e1].0.num == g.start_num(r, c));
    assert(g.entries@[e2].0.num == g.start_num(r, c));
    assert(g.entries@[e1].0 == EntryIndex {
        num: g.start_num(r, c) as u32,
        dir: EntryDir::Across,
    });
    assert(g.entries@[e2].0 == EntryIndex { num: g.start_num(r, c) as u32, dir: EntryDir::Down });
    assert(g.has_entry(g.entries@[e1].0));
    assert(g.has_entry(g.entries@[e2].0));
}

/// Law: filling an unfilled slot with a word of its length that was not yet
/// recorded as placed, and then immediately undoing that fill, restores the
/// grid contents at every coordinate, the unfilled set, the placed-word set
/// and the change log exactly.
pub proof fn lemma_fill_undo_round_trip<T: UnrankedDict>(
    s0: GridSolver<T>,
    s1: GridSolver<T>,
    s2: GridSolver<T>,
    index: EntryIndex,
    word: Word,
)
    requires
        s0.wf(),
        s0.unfilled().contains(index),
        word@.len() == s0.spec_grid().entry_coords(index).len(),
        !s0.added().contains(word@),
        GridSolver::fill_post(s0, s1, index, word),
        GridSolver::undo_post(s1, s2),
    ensures
        forall|r: int, c: int|
            0 <= r < s0.spec_grid().spec_height() && 0 <= c < s0.spec_grid().spec_width()
                ==> #[trigger] s2.spec_grid().spec_cell(r, c) == s0.spec_grid().spec_cell(r, c),
        s2.unfilled() == s0.unfilled(),
        s2.added() == s0.added(),
        s2.changes_view() == s0.changes_view(),
{
    let g0 = s0.spec_grid();
    let g1 = s1.spec_grid();
    let g2 = s2.spec_grid();
    let coords = g0.entry_coords(index);
    let i = choose|i: int|
        0 <= i < s0.unfilled_entries@.len() && (#[trigger] s0.unfilled_entries@[i]) == index;
    assert(g0.has_entry(index));
    g0.lemma_entry_coords_ok(index);
    assert(s1.changes_view() == s0.changes_view().push((index, word@, g0.entry_letters(index))));
    assert(s1.changes_view().last() == (index, word@, g0.entry_letters(index)));
    assert(s2.changes_view() =~= s0.changes_view());
    assert(s2.unfilled() =~= s0.unfilled()) by {
        assert(s1.unfilled() == s0.unfilled().remove(index));
        assert(s2.unfilled() == s1.unfilled().insert(index));
    }
    assert(s2.added() =~= s0.added()) by {
        assert(s1.added() == s0.added().insert(word@));
        assert(s2.added() == s1.added().remove(word@));
    }
    assert(g1.has_entry(index));
    assert(g1.entry_coords(index) == coords);
    assert forall|r: int, c: int|
        0 <= r < g0.spec_height() && 0 <= c < g0.spec_width() implies #[trigger] g2.spec_cell(
        r,
        c,
    ) == g0.spec_cell(r, c) by {
        if writes_upto(coords, coords.len() as int, r, c) {
            let q = choose|q: int|
                0 <= q < coords.len() && (#[trigger] coords[q]).row == r && coords[q].col == c;
            assert(g0.white(coords[q].row as int, coords[q].col as int));
            assert(g0.white(r, c));
            assert(g2.letter_at(r, c) == g0.entry_letters(index)[q]);
            assert(g0.entry_letters(index)[q] == g0.letter_at(r, c));
            assert(g0.letter_at(r, c) == cell_letter(g0.spec_cell(r, c)));
            assert(g2.letter_at(r, c) == cell_letter(g2.spec_cell(r, c)));
            assert(g1.white(r, c));
            assert(g2.white(r, c));
            assert(cell_white(g2.spec_cell(r, c)));
            assert(cell_white(g0.spec_cell(r, c)));
            assert(g2.spec_cell(r, c) == Cell::White(cell_letter(g2.spec_cell(r, c))));
            assert(g0.spec_cell(r, c) == Cell::White(cell_letter(g0.spec_cell(r, c))));
        } else {
            assert(g2.spec_cell(r, c) == g1.spec_cell(r, c));
            assert(g1.spec_cell(r, c) == g0.spec_cell(r, c));
        }
    }
}

/// Preserving the topology is transitive.
proof fn lemma_topology_trans(a: Grid, b: Grid, c: Grid)
    requires
        topology_preserved(a, b),
        topology_preserved(b, c),
    ensures
        topology_preserved(a, c),
{
    assert forall|idx: EntryIndex| #[trigger] c.has_entry(idx) == a.has_entry(idx) by {
        assert(b.has_entry(idx) == a.has_entry(idx));
        assert(c.has_entry(idx) == b.has_entry(idx));
    }
    assert forall|idx: EntryIndex| #[trigger]
        a.has_entry(idx) implies c.entry_coords(idx) == a.entry_coords(idx) by {
        assert(b.has_entry(idx) == a.has_entry(idx));
        assert(b.entry_coords(idx) == a.entry_coords(idx));
        assert(c.entry_coords(idx) == b.entry_coords(idx));
    }
    assert forall|x: EntryIndex, y: EntryIndex| #[trigger]
        c.crossing(x, y) == a.crossing(x, y) by {
        assert(b.crossing(x, y) == a.crossing(x, y));
        assert(c.crossing(x, y) == b.crossing(x, y));
    }
    assert forall|r: int, c2: int| #[trigger] c.white(r, c2) == a.white(r, c2) by {
        assert(b.white(r, c2) == a.white(r, c2));
        assert(c.white(r, c2) == b.white(r, c2));
    }
}

/// A copy of a list of words, content for content.
fn clone_words(v: &Vec<Word>) -> (r: Vec<Word>)
    ensures
        r@.len() == v@.len(),
        forall|i: int| 0 <= i < v@.len() ==> (#[trigger] r@[i])@ == v@[i]@,
{
    let mut r: Vec<Word> = Vec::new();
    let mut i: usize = 0;
    while i < v.len()
        invariant
            i <= v@.len(),
            r@.len() == i,
            forall|j: int| 0 <= j < i ==> (#[trigger] r@[j])@ == v@[j]@,
        decreases v@.len() - i,
    {
        r.push(v[i].clone());
        i += 1;
    }
    r
}

/// The first position holding a word with this content, if any.
fn find_word(v: &Vec<Word>, word: &Word) -> (r: Option<usize>)
    ensures
        r matches Some(p) ==> p < v@.len() && v@[p as int]@ == word@,
        r is None ==> forall|j: int| 0 <= j < v@.len() ==> (#[trigger] v@[j])@ != word@,
{
    let mut p: usize = 0;
    while p < v.len()
        invariant
            p <= v@.len(),
            forall|j: int| 0 <= j < p ==> (#[trigger] v@[j])@ != word@,
        decreases v@.len() - p,
    {
        if &v[p] == word {
            return Some(p);
        }
        p += 1;
    }
    None
}

/// The first matching position determines the stored candidate list.
proof fn lemma_pf_get_first(s: Seq<(EntryIndex, Vec<Word>)>, index: EntryIndex, k: int)
    requires
        0 <= k < s.len(),
        forall|p: int| 0 <= p < k ==> (#[trigger] s[p]).0 != index,
        s[k].0 == index,
    ensures
        pf_get(s, index) == Some(s[k].1@),
    decreases k,
{
    if k > 0 {
        assert forall|p: int| 0 <= p < k - 1 implies (#[trigger] s.drop_first()[p]).0
            != index by {
            assert(s.drop_first()[p] == s[p + 1]);
            assert(s[p + 1].0 != index);
        }
        assert(s.drop_first()[k - 1] == s[k]);
        lemma_pf_get_first(s.drop_first(), index, k - 1);
    }
}

/// A key at no position has no stored candidate list.
proof fn lemma_pf_get_absent(s: Seq<(EntryIndex, Vec<Word>)>, index: EntryIndex)
    requires
        forall|p: int| 0 <= p < s.len() ==> (#[trigger] s[p]).0 != index,
    ensures
        pf_get(s, index) is None,
    decreases s.len(),
{
    if s.len() > 0 {
        assert forall|p: int| 0 <= p < s.drop_first().len() implies (
        #[trigger] s.drop_first()[p]).0 != index by {
            assert(s.drop_first()[p] == s[p + 1]);
            assert(s[p + 1].0 != index);
        }
        lemma_pf_get_absent(s.drop_first(), index);
    }
}

/// Replaces the candidate list stored for the index, or appends one.
fn pf_put(s: &mut Vec<(EntryIndex, Vec<Word>)>, index: EntryIndex, fills: Vec<Word>)
    ensures
        pf_get(final(s)@, index) == Some::<Seq<Word>>(fills@),
        forall|j: EntryIndex|
            j != index ==> pf_get(final(s)@, j) == pf_get(old(s)@, j),
{
    let ghost orig = s@;
    let mut k: usize = 0;
    while k < s.len()
        invariant
            k <= s@.len(),
            s@ == orig,
            orig == old(s)@,
            forall|p: int| 0 <= p < k ==> (#[trigger] s@[p]).0 != index,
        decreases s@.len() - k,
    {
        if s[k].0 == index {
            s.set(k, (index, fills));
            proof {
                lemma_pf_get_update(orig, s@, index, k as int);
            }
            return ;
        }
        k += 1;
    }
    s.push((index, fills));
    proof {
        lemma_pf_get_append(orig, s@, index);
    }
}

/// Updating position k, which holds the first occurrence of the key,
/// changes only that key's lookup.
proof fn lemma_pf_get_update(
    orig: Seq<(EntryIndex, Vec<Word>)>,
    upd: Seq<(EntryIndex, Vec<Word>)>,
    index: EntryIndex,
    k: int,
)
    requires
        0 <= k < orig.len(),
        upd.len() == orig.len(),
        forall|p: int| 0 <= p < orig.len() && p != k ==> upd[p] == orig[p],
        forall|p: int| 0 <= p < k ==> (#[trigger] orig[p]).0 != index,
        upd[k].0 == index,
        orig[k].0 == index,
    ensures
        pf_get(upd, index) == Some(upd[k].1@),
        forall|j: EntryIndex| j != index ==> pf_get(upd, j) == pf_get(orig, j),
    decreases orig.len(),
{
    if k == 0 {
        assert(pf_get(upd, index) == Some(upd[0].1@));
        assert forall|j: EntryIndex| j != index implies pf_get(upd, j) == pf_get(orig, j) by {
            assert(pf_get(upd, j) == pf_get(upd.drop_first(), j));
            assert(pf_get(orig, j) == pf_get(orig.drop_first(), j));
            lemma_pf_get_same_tail(upd.drop_first(), orig.drop_first(), j);
        }
    } else {
        let o2 = orig.drop_first();
        let u2 = upd.drop_first();
        assert(upd[0] == orig[0]);
        assert(orig[0].0 != index);
        assert forall|p: int| 0 <= p < k - 1 implies (#[trigger] o2[p]).0 != index by {
            assert(o2[p] == orig[p + 1]);
            assert(orig[p + 1].0 != index);
        }
        assert forall|p: int| 0 <= p < o2.len() && p != k - 1 implies u2[p] == o2[p] by {
            assert(u2[p] == upd[p + 1]);
            assert(o2[p] == orig[p + 1]);
            assert(upd[p + 1] == orig[p + 1]);
        }
        assert(u2[k - 1] == upd[k]);
        assert(o2[k - 1] == orig[k]);
        lemma_pf_get_update(o2, u2, index, k - 1);
        assert(pf_get(upd, index) == pf_get(u2, index));
        assert forall|j: EntryIndex| j != index implies pf_get(upd, j) == pf_get(orig, j) by {
            assert(pf_get(u2, j) == pf_get(o2, j));
            if upd[0].0 != j {
                assert(pf_get(upd, j) == pf_get(u2, j));
                assert(pf_get(orig, j) == pf_get(o2, j));
            }
        }
    }
}

/// Equal lists answer every lookup equally.
proof fn lemma_pf_get_same_tail(
    a: Seq<(EntryIndex, Vec<Word>)>,
    b: Seq<(EntryIndex, Vec<Word>)>,
    j: EntryIndex,
)
    requires
        a.len() == b.len(),
        forall|p: int| 0 <= p < a.len() ==> a[p] == b[p],
    ensures
        pf_get(a, j) == pf_get(b, j),
    decreases a.len(),
{
    if a.len() > 0 {
        lemma_pf_get_same_tail(a.drop_first(), b.drop_first(), j);
    }
}

/// Appending a key not yet present adds only that key's lookup.
proof fn lemma_pf_get_append(
    orig: Seq<(EntryIndex, Vec<Word>)>,
    app: Seq<(EntryIndex, Vec<Word>)>,
    index: EntryIndex,
)
    requires
        app.len() == orig.len() + 1,
        forall|p: int| 0 <= p < orig.len() ==> app[p] == orig[p],
        forall|p: int| 0 <= p < orig.len() ==> (#[trigger] orig[p]).0 != index,
        app[orig.len() as int].0 == index,
    ensures
        pf_get(app, index) == Some(app[orig.len() as int].1@),
        forall|j: EntryIndex| j != index ==> pf_get(app, j) == pf_get(orig, j),
    decreases orig.len(),
{
    if orig.len() == 0 {
        assert(app[0].0 == index);
        assert(pf_get(app, index) == Some(app[0].1@));
        assert forall|j: EntryIndex| j != index implies pf_get(app, j) == pf_get(orig, j) by {
            assert(app.drop_first().len() == 0);
            assert(pf_get(app.drop_first(), j) is None);
            assert(pf_get(app, j) is None);
            assert(pf_get(orig, j) is None);
        }
    } else {
        let o2 = orig.drop_first();
        let a2 = app.drop_first();
        assert(app[0] == orig[0]);
        assert(orig[0].0 != index);
        assert forall|p: int| 0 <= p < o2.len() implies a2[p] == o2[p] by {
            assert(a2[p] == app[p + 1]);
            assert(o2[p] == orig[p + 1]);
            assert(app[p + 1] == orig[p + 1]);
        }
        assert forall|p: int| 0 <= p < o2.len() implies (#[trigger] o2[p]).0 != index by {
            assert(o2[p] == orig[p + 1]);
            assert(orig[p + 1].0 != index);
        }
        assert(a2[o2.len() as int] == app[orig.len() as int]);
        lemma_pf_get_append(o2, a2, index);
        assert(pf_get(app, index) == pf_get(a2, index));
        assert forall|j: EntryIndex| j != index implies pf_get(app, j) == pf_get(orig, j) by {
            assert(pf_get(a2, j) == pf_get(o2, j));
            if app[0].0 != j {
                assert(pf_get(app, j) == pf_get(a2, j));
                assert(pf_get(orig, j) == pf_get(o2, j));
            }
        }
    }
}

/// Whether two coordinate lists share at least one coordinate.
fn coords_intersect(a: &Vec<GridCoord>, b: &Vec<GridCoord>) -> (r: bool)
    ensures
        r == exists|i: int, j: int|
            #![trigger a@[i], b@[j]]
            0 <= i < a@.len() && 0 <= j < b@.len() && a@[i] == b@[j],
{
    let mut i: usize = 0;
    while i < a.len()
        invariant
            i <= a@.len(),
            forall|p: int, q: int|
                #![trigger a@[p], b@[q]]
                0 <= p < i && 0 <= q < b@.len() ==> a@[p] != b@[q],
        decreases a@.len() - i,
    {
        let mut j: usize = 0;
        while j < b.len()
            invariant
                i < a@.len(),
                j <= b@.len(),
                forall|q: int| 0 <= q < j ==> a@[i as int] != b@[q],
            decreases b@.len() - j,
        {
            if a[i] == b[j] {
                return true;
            }
            j += 1;
        }
        i += 1;
    }
    false
}

} // verus!
