use jacobi::domain::Domain;
use jacobi::grid2d::{Grid, PartitionedGrid};

fn square(lo: i64, hi: i64) -> Domain {
    Domain::new_from_ranges(&vec![lo..hi, lo..hi])
}

fn numbered(n: i64) -> Grid<f64> {
    let mut g: Grid<f64> = Grid::new_from_domain(&square(0, n), &square(1, n - 1));
    for x in 0..n {
        for y in 0..n {
            g.set(&[x, y], (x * 100 + y) as f64);
        }
    }
    g
}

#[test]
fn new_grid_is_zero() {
    let g: Grid<f64> = Grid::new_from_domain(&square(0, 3), &square(1, 2));
    for x in 0..3 {
        for y in 0..3 {
            assert_eq!(g.get(&[x, y]), 0.0);
        }
    }
    assert!(*g.domain() == square(0, 3));
    assert!(*g.iter_domain() == square(1, 2));
    let h: Grid<i32> = Grid::new_from_domain(&square(-2, 0), &square(-2, 0));
    assert_eq!(h.get(&[-2, -1]), 0);
}

#[test]
fn set_changes_one_point() {
    let mut g: Grid<i32> = Grid::new_from_domain(&square(0, 3), &square(0, 3));
    g.set(&[1, 2], 7);
    for x in 0..3 {
        for y in 0..3 {
            let expected = if x == 1 && y == 2 { 7 } else { 0 };
            assert_eq!(g.get(&[x, y]), expected);
        }
    }
}

#[test]
fn clone_keeps_everything() {
    let g = numbered(4);
    let c = g.clone();
    assert!(*c.domain() == *g.domain());
    assert!(*c.iter_domain() == *g.iter_domain());
    for x in 0..4 {
        for y in 0..4 {
            assert_eq!(c.get(&[x, y]), g.get(&[x, y]));
        }
    }
}

#[test]
fn subgrid_copies_values_and_cuts_sweep_domain() {
    let g = numbered(5);
    let sub_domain = Domain::new_from_ranges(&vec![0..2, 0..5]);
    let s = g.subgrid(&sub_domain);
    assert!(*s.domain() == sub_domain);
    assert!(*s.iter_domain() == Domain::new_from_ranges(&vec![1..2, 1..4]));
    for x in 0..2 {
        for y in 0..5 {
            assert_eq!(s.get(&[x, y]), (x * 100 + y) as f64);
        }
    }
}

#[test]
fn subgrid_of_whole_domain_is_a_copy() {
    let g = numbered(4);
    let s = g.subgrid(&square(0, 4));
    assert!(*s.iter_domain() == square(1, 3));
    assert_eq!(s.get(&[3, 2]), 302.0);
}

#[test]
fn subgrid_of_clean_empty_domain_has_no_values() {
    let g = numbered(4);
    let s = g.subgrid(&Domain::new_from_ranges(&vec![4..4, 0..4]));
    assert_eq!(s.domain().size(), 0);
}

#[test]
fn partitioned_from_domain_holds_default_slabs() {
    let pg: PartitionedGrid<f64> = PartitionedGrid::new_from_domain(&square(0, 10), &square(1, 9), 4);
    let parts = pg.grids();
    assert_eq!(parts.len(), 4);
    assert!(*parts[1].domain() == Domain::new_from_ranges(&vec![3..6, 0..10]));
    assert!(*parts[1].iter_domain() == Domain::new_from_ranges(&vec![3..6, 1..9]));
    assert!(*parts[3].iter_domain() == Domain::new_from_ranges(&vec![9..9, 1..9]));
    assert_eq!(parts[2].get(&[7, 7]), 0.0);
}

#[test]
fn partition_then_assemble_gives_the_grid_back() {
    let g = numbered(7);
    for n in 1..6 {
        let pg = PartitionedGrid::new_from_grid(&g, n);
        assert_eq!(pg.grids().len(), n);
        let h = Grid::new_from_partitioned_grid(&pg);
        assert!(*h.domain() == *g.domain());
        assert!(*h.iter_domain() == *g.iter_domain());
        for x in 0..7 {
            for y in 0..7 {
                assert_eq!(h.get(&[x, y]), g.get(&[x, y]));
            }
        }
    }
}

#[test]
fn assemble_takes_updated_parts() {
    let g: Grid<i32> = Grid::new_from_domain(&square(0, 4), &square(1, 3));
    let mut pg = PartitionedGrid::new_from_grid(&g, 2);
    let mut parts: Vec<Grid<i32>> = pg.grids().clone();
    parts[0].set(&[1, 1], 5);
    parts[1].set(&[2, 3], 9);
    pg.set_grids(parts);
    let h = Grid::new_from_partitioned_grid(&pg);
    assert_eq!(h.get(&[1, 1]), 5);
    assert_eq!(h.get(&[2, 3]), 9);
    assert_eq!(h.get(&[0, 0]), 0);
}

#[test]
fn assemble_leaves_uncovered_points_default() {
    let pg: PartitionedGrid<i32> = PartitionedGrid::new_from_domain(&square(0, 4), &square(0, 4), 0);
    let h = Grid::new_from_partitioned_grid(&pg);
    assert_eq!(h.get(&[3, 3]), 0);
}

#[test]
fn grids_made_by_the_library_are_well_formed() {
    let g = numbered(5);
    assert!(g.is_well_formed());
    let pg = PartitionedGrid::new_from_grid(&g, 3);
    for part in pg.grids() {
        assert!(part.is_well_formed());
    }
}
