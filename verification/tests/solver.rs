use gridsolver::basic_types::Cell;
use gridsolver::basic_types::EntryDir;
use gridsolver::basic_types::EntryIndex;
use gridsolver::basic_types::GridCoord;
use gridsolver::basic_types::Word;
use gridsolver::dict::Dictionary;
use gridsolver::dict::RankedDict;
use gridsolver::dict::RankedDictionary;
use gridsolver::dict::UnrankedDict;
use gridsolver::grid::Grid;
use gridsolver::grid::GridSolver;
use gridsolver::rng::Shuffler;

fn idx(num: u32, dir: EntryDir) -> EntryIndex {
    EntryIndex::new(num, dir).unwrap()
}

fn small_dict() -> Dictionary {
    let mut d = Dictionary::new();
    for t in ["CAT", "ARE", "TEN"] {
        d.add(&Word::from_text(t));
    }
    d
}

fn entry_word(g: &Grid, e: EntryIndex) -> Word {
    let entry = g.get_entry(e).unwrap();
    let letters: Vec<_> = entry.letters.iter().map(|l| l.unwrap()).collect();
    Word::new(&letters)
}

#[test]
fn solve_on_a_grid_with_no_entries_succeeds_at_once() {
    // A 1-by-1 grid has no run of length three, so nothing to fill: solve
    // reports success without performing any fill.
    let g = Grid::new(1, 1).unwrap();
    let mut solver = GridSolver::new(g, small_dict());
    let mut shuffler = Shuffler::from_seed(7);
    assert!(solver.solve(&mut shuffler));
    assert!(solver.added_words().is_empty());
    assert_eq!(solver.grid().get_cell(GridCoord::new(0, 0)), Some(Cell::White(None)));
}

#[test]
fn solve_fails_cleanly_when_no_candidate_exists() {
    // One three-cell entry and no three-letter word: the candidate list at
    // the only node is empty, so solve fails without a single fill.
    let g = Grid::new(3, 1).unwrap();
    let mut solver = GridSolver::new(g, Dictionary::new());
    let mut shuffler = Shuffler::from_seed(7);
    assert!(!solver.solve(&mut shuffler));
    assert!(solver.added_words().is_empty());
    assert_eq!(solver.grid().get_cell(GridCoord::new(0, 0)), Some(Cell::White(None)));
    assert!(!solver.grid().is_filled());
}

#[test]
fn fill_then_undo_restores_the_state() {
    let g = Grid::new(3, 3).unwrap();
    let before = g.clone();
    let mut solver = GridSolver::new(g, small_dict());
    let a1 = idx(1, EntryDir::Across);
    solver.fill(a1, &Word::from_text("CAT"));
    assert!(solver.grid().is_entry_filled(a1));
    assert_eq!(solver.added_words().len(), 1);
    solver.undo_last_fill();
    assert!(!solver.grid().is_entry_filled(a1));
    assert!(solver.added_words().is_empty());
    for e in before.entry_indices() {
        assert_eq!(solver.grid().get_entry(e).unwrap(), before.get_entry(e).unwrap());
    }
    // with an empty log, undo is a no-op
    solver.undo_last_fill();
    assert!(solver.added_words().is_empty());
}

#[test]
fn undo_restores_preseeded_crossing_letters() {
    let mut g = Grid::new(3, 3).unwrap();
    g.fill_entry(idx(1, EntryDir::Down), &Word::from_text("CAT"));
    let mut solver = GridSolver::new(g, small_dict());
    let a1 = idx(1, EntryDir::Across);
    solver.fill(a1, &Word::from_text("CAT"));
    solver.undo_last_fill();
    // the across slot lost its letters, but the seeded down word kept the
    // shared corner cell
    let down = solver.grid().get_entry(idx(1, EntryDir::Down)).unwrap();
    assert!(down.letters.iter().all(|l| l.is_some()));
    let across = solver.grid().get_entry(a1).unwrap();
    assert!(across.letters[0].is_some());
    assert!(across.letters[1].is_none());
    assert!(across.letters[2].is_none());
}

#[test]
fn solve_fills_every_entry_with_dictionary_words() {
    // The 3-by-3 all-fillable grid with words CAT, ARE and TEN has the
    // classic symmetric solution; repeated seeded attempts must find it.
    let mut solved = false;
    for seed in 0..50 {
        let g = Grid::new(3, 3).unwrap();
        let mut solver = GridSolver::new(g, small_dict());
        let mut shuffler = Shuffler::from_seed(seed);
        if solver.solve(&mut shuffler) {
            solved = true;
            let dict = small_dict();
            for e in solver.grid().entry_indices() {
                assert!(solver.grid().is_entry_filled(e));
                assert!(dict.contains(&entry_word(solver.grid(), e)));
            }
            assert!(solver.grid().is_filled());
            break;
        }
    }
    assert!(solved);
}

#[test]
fn solve_honors_preseeded_letters() {
    let mut g = Grid::new(3, 3).unwrap();
    g.fill_entry(idx(1, EntryDir::Across), &Word::from_text("CAT"));
    let mut solved = false;
    for seed in 0..50 {
        let mut solver = GridSolver::new(g.clone(), small_dict());
        let mut shuffler = Shuffler::from_seed(seed);
        if solver.solve(&mut shuffler) {
            solved = true;
            assert_eq!(entry_word(solver.grid(), idx(1, EntryDir::Across)).to_text(), "CAT");
            assert!(solver.grid().is_filled());
            break;
        }
    }
    assert!(solved);
}

fn small_ranked(scores: [i32; 3]) -> RankedDictionary {
    let mut d = RankedDictionary::new();
    for (t, s) in ["CAT", "ARE", "TEN"].iter().zip(scores) {
        let w = Word::from_text(t);
        d.add(&w);
        d.set_score(&w, s);
    }
    d
}

#[test]
fn solve_ranked_uses_well_scored_words() {
    let g = Grid::new(3, 3).unwrap();
    let mut solver = GridSolver::new_ranked(g, small_ranked([50, 60, 70]));
    assert!(solver.solve_ranked());
    let dict = small_ranked([50, 60, 70]);
    for e in solver.grid().entry_indices() {
        assert!(dict.contains(&entry_word(solver.grid(), e)));
    }
    // each of the three words was placed (each is used by a row and a
    // column); the sum of their scores follows
    assert_eq!(solver.added_words().len(), 3);
    assert_eq!(solver.score_sum(), 180);
}

#[test]
fn solve_ranked_rejects_words_below_the_threshold() {
    // ARE scores 39, one below the threshold of 40, so it is in no ranked
    // candidate list; the middle row and column cannot be filled and the
    // deterministic ranked search fails without touching the grid.
    let g = Grid::new(3, 3).unwrap();
    let mut solver = GridSolver::new_ranked(g, small_ranked([50, 39, 70]));
    assert!(!solver.solve_ranked());
    assert!(!solver.grid().is_filled());
    assert!(solver.added_words().is_empty());
}

#[test]
fn solve_ranked_accepts_words_at_the_threshold() {
    // A score of exactly 40 meets the inclusive threshold.
    let g = Grid::new(3, 3).unwrap();
    let mut solver = GridSolver::new_ranked(g, small_ranked([40, 40, 40]));
    assert!(solver.solve_ranked());
    assert!(solver.grid().is_filled());
}

#[test]
fn solve_ranked_fails_cleanly_without_candidates() {
    // No three-letter word in the ranked dictionary: the deterministic
    // ranked search fails at the first node without filling anything.
    let g = Grid::new(3, 3).unwrap();
    let mut d = RankedDictionary::new();
    d.add(&Word::from_text("STONE"));
    let mut solver = GridSolver::new_ranked(g, d);
    assert!(!solver.solve_ranked());
    assert!(!solver.grid().is_filled());
    assert!(solver.added_words().is_empty());
}

#[test]
fn ranked_fill_and_undo_round_trip() {
    let g = Grid::new(3, 3).unwrap();
    let mut solver = GridSolver::new_ranked(g, small_ranked([50, 60, 70]));
    let a1 = idx(1, EntryDir::Across);
    solver.fill_ranked(a1, &Word::from_text("CAT"));
    assert!(solver.grid().is_entry_filled(a1));
    solver.undo_last_fill_ranked();
    assert!(!solver.grid().is_entry_filled(a1));
    assert!(solver.added_words().is_empty());
    solver.undo_last_fill_ranked();
    assert!(solver.added_words().is_empty());
}
