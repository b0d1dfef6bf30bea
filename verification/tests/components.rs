use wireworld::cell::Cell;
use wireworld::dirty::DirtySet;
use wireworld::engine::Wireworld;
use wireworld::error::WireworldError;
use wireworld::grid::Grid;

#[test]
fn grid_new_get_set() {
    assert!(matches!(Grid::new(0, 2), Err(WireworldError::InvalidDimensions)));
    assert!(matches!(Grid::new(2, 0), Err(WireworldError::InvalidDimensions)));

    let mut g = Grid::new(3, 2).unwrap();
    assert_eq!(g.width(), 3);
    assert_eq!(g.height(), 2);
    assert_eq!(g.get(2, 1).unwrap(), Cell::Empty);
    g.set_cell(2, 1, Cell::Conductor).unwrap();
    assert_eq!(g.get(2, 1).unwrap(), Cell::Conductor);
    assert_eq!(g.get(0, 0).unwrap(), Cell::Empty);
    assert!(matches!(g.get(3, 0), Err(WireworldError::OutOfBounds)));
    assert!(matches!(g.get(0, 2), Err(WireworldError::OutOfBounds)));
    assert!(matches!(g.set_cell(3, 0, Cell::Empty), Err(WireworldError::OutOfBounds)));
    assert!(matches!(g.set_cell(0, 2, Cell::Empty), Err(WireworldError::OutOfBounds)));
    // the rejected writes changed nothing
    assert_eq!(g.get(2, 1).unwrap(), Cell::Conductor);

    let copy = g.clone_grid();
    assert_eq!(copy.get(2, 1).unwrap(), Cell::Conductor);
    assert_eq!(copy.get(1, 1).unwrap(), Cell::Empty);
}

#[test]
fn dirty_set_membership_and_dedup() {
    let mut d = DirtySet::new(4, 4);
    assert!(d.is_empty());
    assert_eq!(d.len(), 0);
    d.insert(1, 2);
    d.insert(1, 2);
    assert_eq!(d.len(), 1);
    assert_eq!(d.get(0), (1, 2));
    assert!(!d.is_empty());
}

#[test]
fn neighborhood_is_clamped_at_corners_and_edges() {
    let mut corner = DirtySet::new(3, 3);
    corner.insert_neighborhood(0, 0);
    let mut got: Vec<(usize, usize)> = Vec::new();
    for k in 0..corner.len() {
        got.push(corner.get(k));
    }
    got.sort();
    assert_eq!(got, vec![(0, 0), (0, 1), (1, 0), (1, 1)]);

    let mut edge = DirtySet::new(3, 3);
    edge.insert_neighborhood(1, 0);
    assert_eq!(edge.len(), 6);

    let mut center = DirtySet::new(3, 3);
    center.insert_neighborhood(1, 1);
    assert_eq!(center.len(), 9);
}

#[test]
fn changed_since_reports_exactly_the_differences() {
    let mut w = Wireworld::new(4, 4).unwrap();
    assert!(w.changed_since().is_empty());

    w.edit(1, 1, Cell::Conductor).unwrap();
    w.edit(2, 1, Cell::ElectronHead).unwrap();
    w.edit(3, 3, Cell::Empty).unwrap(); // writes the value already there
    let mut got = w.changed_since();
    got.sort_by_key(|e| (e.0, e.1));
    assert_eq!(got, vec![(1, 1, Cell::Conductor), (2, 1, Cell::ElectronHead)]);

    // drained: a second call has nothing to report
    assert!(w.changed_since().is_empty());

    // a tick queues exactly the cells it changed
    w.step();
    let mut after = w.changed_since();
    after.sort_by_key(|e| (e.0, e.1));
    assert_eq!(
        after,
        vec![(1, 1, Cell::ElectronHead), (2, 1, Cell::ElectronTail)]
    );
}

#[test]
fn reverted_edit_is_not_reported() {
    let mut w = Wireworld::new(2, 2).unwrap();
    w.edit(0, 0, Cell::Conductor).unwrap();
    w.edit(0, 0, Cell::Empty).unwrap();
    assert!(w.changed_since().is_empty());
}
