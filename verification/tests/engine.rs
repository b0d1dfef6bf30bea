use wireworld::cell::Cell;
use wireworld::engine::Wireworld;
use wireworld::error::WireworldError;

/// Reads one cell, panicking on an out-of-range coordinate.
fn cell(w: &Wireworld, x: usize, y: usize) -> Cell {
    w.cell_at(x, y).unwrap()
}

/// Collects the whole grid row-major for easy comparison.
fn snapshot(w: &Wireworld, width: usize, height: usize) -> Vec<Cell> {
    let mut out = Vec::new();
    for y in 0..height {
        for x in 0..width {
            out.push(cell(w, x, y));
        }
    }
    out
}

#[test]
fn new_rejects_zero_dimensions() {
    assert!(matches!(Wireworld::new(0, 5), Err(WireworldError::InvalidDimensions)));
    assert!(matches!(Wireworld::new(5, 0), Err(WireworldError::InvalidDimensions)));
    assert!(matches!(Wireworld::new(0, 0), Err(WireworldError::InvalidDimensions)));
    assert!(Wireworld::new(1, 1).is_ok());
}

#[test]
fn new_grid_is_all_empty_and_quiescent() {
    let mut w = Wireworld::new(4, 3).unwrap();
    assert_eq!(w.width(), 4);
    assert_eq!(w.height(), 3);
    assert!(w.is_quiescent());
    for _ in 0..10 {
        w.step();
        assert!(w.is_quiescent());
    }
    for y in 0..3 {
        for x in 0..4 {
            assert_eq!(cell(&w, x, y), Cell::Empty);
        }
    }
}

#[test]
fn bounds_rejection_one_past_the_end() {
    let mut w = Wireworld::new(3, 2).unwrap();
    w.edit(1, 1, Cell::Conductor).unwrap();
    let before = snapshot(&w, 3, 2);

    assert!(matches!(w.cell_at(3, 0), Err(WireworldError::OutOfBounds)));
    assert!(matches!(w.cell_at(0, 2), Err(WireworldError::OutOfBounds)));
    assert!(matches!(w.edit(3, 0, Cell::ElectronHead), Err(WireworldError::OutOfBounds)));
    assert!(matches!(w.edit(0, 2, Cell::ElectronHead), Err(WireworldError::OutOfBounds)));
    assert!(matches!(w.edit(usize::MAX, usize::MAX, Cell::ElectronHead), Err(WireworldError::OutOfBounds)));

    // nothing was mutated by the rejected calls
    assert_eq!(snapshot(&w, 3, 2), before);
}

#[test]
fn rejected_edit_leaves_dirty_set_unmodified() {
    let mut w = Wireworld::new(3, 3).unwrap();
    w.step();
    assert!(w.is_quiescent());
    assert!(matches!(w.edit(3, 3, Cell::Conductor), Err(WireworldError::OutOfBounds)));
    assert!(w.is_quiescent());
}

#[test]
fn head_decays_to_tail_regardless_of_neighbors() {
    // surround one head with every state
    let mut w = Wireworld::new(3, 3).unwrap();
    w.edit(1, 1, Cell::ElectronHead).unwrap();
    w.edit(0, 0, Cell::ElectronHead).unwrap();
    w.edit(1, 0, Cell::ElectronTail).unwrap();
    w.edit(2, 0, Cell::Conductor).unwrap();
    w.step();
    assert_eq!(cell(&w, 1, 1), Cell::ElectronTail);

    // and a lone head with no neighbors at all
    let mut lone = Wireworld::new(1, 1).unwrap();
    lone.edit(0, 0, Cell::ElectronHead).unwrap();
    lone.step();
    assert_eq!(cell(&lone, 0, 0), Cell::ElectronTail);
}

#[test]
fn tail_decays_to_conductor_regardless_of_neighbors() {
    let mut w = Wireworld::new(3, 3).unwrap();
    w.edit(1, 1, Cell::ElectronTail).unwrap();
    w.edit(0, 1, Cell::ElectronHead).unwrap();
    w.edit(2, 1, Cell::ElectronHead).unwrap();
    w.step();
    assert_eq!(cell(&w, 1, 1), Cell::Conductor);

    let mut lone = Wireworld::new(1, 1).unwrap();
    lone.edit(0, 0, Cell::ElectronTail).unwrap();
    lone.step();
    assert_eq!(cell(&lone, 0, 0), Cell::Conductor);
}

#[test]
fn conductor_fires_on_one_or_two_heads_only() {
    // one head neighbor: fires
    let mut w1 = Wireworld::new(3, 1).unwrap();
    w1.edit(0, 0, Cell::ElectronHead).unwrap();
    w1.edit(1, 0, Cell::Conductor).unwrap();
    w1.step();
    assert_eq!(cell(&w1, 1, 0), Cell::ElectronHead);

    // two head neighbors: fires
    let mut w2 = Wireworld::new(3, 1).unwrap();
    w2.edit(0, 0, Cell::ElectronHead).unwrap();
    w2.edit(2, 0, Cell::ElectronHead).unwrap();
    w2.edit(1, 0, Cell::Conductor).unwrap();
    w2.step();
    assert_eq!(cell(&w2, 1, 0), Cell::ElectronHead);

    // three head neighbors: stays a conductor
    let mut w3 = Wireworld::new(3, 3).unwrap();
    w3.edit(0, 0, Cell::ElectronHead).unwrap();
    w3.edit(2, 0, Cell::ElectronHead).unwrap();
    w3.edit(1, 2, Cell::ElectronHead).unwrap();
    w3.edit(1, 1, Cell::Conductor).unwrap();
    w3.step();
    assert_eq!(cell(&w3, 1, 1), Cell::Conductor);

    // zero head neighbors: stays a conductor
    let mut w0 = Wireworld::new(3, 1).unwrap();
    w0.edit(1, 0, Cell::Conductor).unwrap();
    w0.step();
    assert_eq!(cell(&w0, 1, 0), Cell::Conductor);
}

#[test]
fn corner_cell_counts_only_in_bounds_neighbors() {
    // a conductor in the corner of a 2x2 grid has exactly 3 candidate
    // neighbors; with all 3 as heads the threshold is exceeded
    let mut all3 = Wireworld::new(2, 2).unwrap();
    all3.edit(0, 0, Cell::Conductor).unwrap();
    all3.edit(1, 0, Cell::ElectronHead).unwrap();
    all3.edit(0, 1, Cell::ElectronHead).unwrap();
    all3.edit(1, 1, Cell::ElectronHead).unwrap();
    all3.step();
    assert_eq!(cell(&all3, 0, 0), Cell::Conductor);

    // with 2 of the 3 as heads it fires
    let mut two = Wireworld::new(2, 2).unwrap();
    two.edit(0, 0, Cell::Conductor).unwrap();
    two.edit(1, 0, Cell::ElectronHead).unwrap();
    two.edit(0, 1, Cell::ElectronHead).unwrap();
    two.step();
    assert_eq!(cell(&two, 0, 0), Cell::ElectronHead);

    // with 1 it fires too
    let mut one = Wireworld::new(2, 2).unwrap();
    one.edit(0, 0, Cell::Conductor).unwrap();
    one.edit(1, 1, Cell::ElectronHead).unwrap();
    one.step();
    assert_eq!(cell(&one, 0, 0), Cell::ElectronHead);
}

#[test]
fn three_by_one_scenario() {
    let mut w = Wireworld::new(3, 1).unwrap();
    w.edit(0, 0, Cell::ElectronHead).unwrap();
    w.edit(1, 0, Cell::Conductor).unwrap();
    assert_eq!(
        snapshot(&w, 3, 1),
        vec![Cell::ElectronHead, Cell::Conductor, Cell::Empty]
    );

    w.step();
    assert_eq!(
        snapshot(&w, 3, 1),
        vec![Cell::ElectronTail, Cell::ElectronHead, Cell::Empty]
    );

    w.step();
    assert_eq!(
        snapshot(&w, 3, 1),
        vec![Cell::Conductor, Cell::ElectronTail, Cell::Empty]
    );
}

#[test]
fn lone_conductor_is_quiescent_after_one_step() {
    let mut w = Wireworld::new(5, 5).unwrap();
    w.edit(2, 2, Cell::Conductor).unwrap();
    assert!(!w.is_quiescent());
    w.step();
    assert!(w.is_quiescent());
    for _ in 0..20 {
        w.step();
        assert_eq!(cell(&w, 2, 2), Cell::Conductor);
        assert!(w.is_quiescent());
    }
    // everything else stayed empty
    for y in 0..5 {
        for x in 0..5 {
            if (x, y) != (2, 2) {
                assert_eq!(cell(&w, x, y), Cell::Empty);
            }
        }
    }
}
