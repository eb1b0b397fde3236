use gridsolver::basic_types::Cell;
use gridsolver::basic_types::EntryDir;
use gridsolver::basic_types::EntryIndex;
use gridsolver::basic_types::Entry;
use gridsolver::basic_types::GridCoord;
use gridsolver::basic_types::Letter;
use gridsolver::basic_types::Word;
use gridsolver::grid::Grid;

fn idx(num: u32, dir: EntryDir) -> EntryIndex {
    EntryIndex::new(num, dir).unwrap()
}

#[test]
fn constructors_reject_zero_dimensions() {
    assert!(Grid::new(0, 3).is_none());
    assert!(Grid::new(3, 0).is_none());
    assert!(Grid::from_cells(&[], 0, 1).is_none());
    assert!(Grid::new(3, 3).is_some());
}

#[test]
fn single_row_yields_one_across_entry_and_no_down() {
    // A 1-by-5 all-fillable row: one across entry of length five; every
    // column has length one, below the minimum, so no down entries.
    let g = Grid::new(5, 1).unwrap();
    let indices = g.entry_indices();
    assert_eq!(indices.len(), 1);
    assert_eq!(indices[0], idx(1, EntryDir::Across));
    let coords = g.get_entry_coords(idx(1, EntryDir::Across)).unwrap();
    assert_eq!(
        coords,
        vec![
            GridCoord::new(0, 0),
            GridCoord::new(0, 1),
            GridCoord::new(0, 2),
            GridCoord::new(0, 3),
            GridCoord::new(0, 4),
        ]
    );
    assert!(g.get_entry_coords(idx(1, EntryDir::Down)).is_none());
}

#[test]
fn shared_start_gets_one_number_for_both_directions() {
    // In a 3-by-3 all-fillable grid the top-left corner starts both an
    // across and a down run, and both carry number one.
    let g = Grid::new(3, 3).unwrap();
    assert!(g.get_entry_coords(idx(1, EntryDir::Across)).is_some());
    assert!(g.get_entry_coords(idx(1, EntryDir::Down)).is_some());
    let mut nums: Vec<(u32, EntryDir)> = g.entry_indices().iter().map(|e| (e.num, e.dir)).collect();
    nums.sort();
    assert_eq!(
        nums,
        vec![
            (1, EntryDir::Across),
            (1, EntryDir::Down),
            (2, EntryDir::Down),
            (3, EntryDir::Down),
            (4, EntryDir::Across),
            (5, EntryDir::Across),
        ]
    );
}

#[test]
fn from_cells_pads_and_truncates() {
    // Too few cells are padded with empty fillable ones.
    let g = Grid::from_cells(&[Cell::Black], 2, 2).unwrap();
    assert_eq!(g.get_cell(GridCoord::new(0, 0)), Some(Cell::Black));
    assert_eq!(g.get_cell(GridCoord::new(1, 1)), Some(Cell::White(None)));
    // Extra cells are dropped.
    let h = Grid::from_cells(&[Cell::White(None), Cell::Black, Cell::Black], 1, 2).unwrap();
    assert_eq!(h.get_cell(GridCoord::new(0, 0)), Some(Cell::White(None)));
    assert_eq!(h.get_cell(GridCoord::new(1, 0)), Some(Cell::Black));
    assert_eq!(h.get_cell(GridCoord::new(2, 0)), None);
}

#[test]
fn blocked_cells_split_runs() {
    // A 5-by-1 row with a block in the middle leaves runs of length two,
    // below the minimum: no entries at all.
    let cells = [
        Cell::White(None),
        Cell::White(None),
        Cell::Black,
        Cell::White(None),
        Cell::White(None),
    ];
    let g = Grid::from_cells(&cells, 5, 1).unwrap();
    assert!(g.entry_indices().is_empty());
}

#[test]
fn get_and_set_cell_are_bounds_checked() {
    let mut g = Grid::new(2, 2).unwrap();
    assert_eq!(g.get_cell(GridCoord::new(5, 0)), None);
    assert_eq!(g.get_cell(GridCoord::new(0, 5)), None);
    // An out-of-range write changes nothing.
    g.set_cell(GridCoord::new(9, 9), Cell::Black);
    assert_eq!(g.get_cell(GridCoord::new(0, 0)), Some(Cell::White(None)));
    let a = Letter::from_byte(b'A').unwrap();
    g.set_cell(GridCoord::new(1, 1), Cell::White(Some(a)));
    assert_eq!(g.get_cell(GridCoord::new(1, 1)), Some(Cell::White(Some(a))));
}

#[test]
fn layout_change_recomputes_topology() {
    let mut g = Grid::new(5, 1).unwrap();
    assert_eq!(g.entry_indices().len(), 1);
    // Blocking the first cell shortens the run; the remaining run of four
    // starts one cell later and is renumbered from one.
    g.set_cell(GridCoord::new(0, 0), Cell::Black);
    let coords = g.get_entry_coords(idx(1, EntryDir::Across)).unwrap();
    assert_eq!(coords.len(), 4);
    assert_eq!(coords[0], GridCoord::new(0, 1));
}

#[test]
fn fill_get_clear_entry() {
    let mut g = Grid::new(5, 1).unwrap();
    let a = idx(1, EntryDir::Across);
    let stone = Word::from_text("STONE");
    g.fill_entry(a, &stone);
    let entry = g.get_entry(a).unwrap();
    let letters: Vec<u8> = entry.letters.iter().map(|l| l.unwrap().to_byte()).collect();
    assert_eq!(letters, b"STONE".to_vec());
    assert!(g.is_entry_filled(a));
    assert!(g.is_filled());
    g.clear_entry(a);
    assert!(!g.is_entry_filled(a));
    assert!(!g.is_filled());
    assert_eq!(g.get_entry(a).unwrap().letters, vec![None, None, None, None, None]);
}

#[test]
fn set_entry_writes_per_position() {
    let mut g = Grid::new(5, 1).unwrap();
    let a = idx(1, EntryDir::Across);
    let s = Letter::from_byte(b'S').unwrap();
    let e = Letter::from_byte(b'E').unwrap();
    g.set_entry(a, &Entry::new(vec![Some(s), None, Some(e)]));
    let entry = g.get_entry(a).unwrap();
    assert_eq!(entry.letters, vec![Some(s), None, Some(e), None, None]);
    // unknown indices are no-ops
    g.set_entry(idx(7, EntryDir::Down), &Entry::new(vec![Some(s)]));
    g.fill_entry(idx(7, EntryDir::Down), &Word::from_text("CAT"));
    g.clear_entry(idx(7, EntryDir::Down));
    assert_eq!(g.get_entry(a).unwrap().letters, vec![Some(s), None, Some(e), None, None]);
}

#[test]
fn entries_perp_to_lists_crossing_entries() {
    let g = Grid::new(3, 3).unwrap();
    let mut perp: Vec<(u32, EntryDir)> = g
        .entries_perp_to(idx(1, EntryDir::Across))
        .iter()
        .map(|e| (e.num, e.dir))
        .collect();
    perp.sort();
    assert_eq!(perp, vec![(1, EntryDir::Down), (2, EntryDir::Down), (3, EntryDir::Down)]);
    assert!(g.entries_perp_to(idx(9, EntryDir::Across)).is_empty());
}

#[test]
fn rows_and_cols_expose_the_layout() {
    let cells = [Cell::Black, Cell::White(None), Cell::White(None), Cell::Black];
    let g = Grid::from_cells(&cells, 2, 2).unwrap();
    let rows = g.rows();
    assert_eq!(rows.len(), 2);
    assert_eq!(rows[0], vec![Cell::Black, Cell::White(None)]);
    assert_eq!(rows[1], vec![Cell::White(None), Cell::Black]);
    let cols = g.cols();
    assert_eq!(cols[0], vec![Cell::Black, Cell::White(None)]);
    assert_eq!(cols[1], vec![Cell::White(None), Cell::Black]);
}

#[test]
fn render_draws_blocks_blanks_and_letters() {
    let a = Letter::from_byte(b'A').unwrap();
    let cells = [Cell::Black, Cell::White(Some(a)), Cell::White(None), Cell::Black];
    let g = Grid::from_cells(&cells, 2, 2).unwrap();
    assert_eq!(g.render(), "#A\n #\n");
}

#[test]
fn entries_returns_every_slot_contents() {
    let mut g = Grid::new(3, 3).unwrap();
    g.fill_entry(idx(1, EntryDir::Across), &Word::from_text("CAT"));
    let all = g.entries();
    assert_eq!(all.len(), 6);
    assert_eq!(g.width(), 3);
    assert_eq!(g.height(), 3);
}
