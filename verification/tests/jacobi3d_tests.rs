use jacobi::grid3d::{jacobi_run, jacobi_step, stencil, Grid};

fn filled(n: usize, v: i32) -> Grid<i32> {
    let mut g: Grid<i32> = Grid::new(n);
    for x in 0..n {
        for y in 0..n {
            for z in 0..n {
                g.write(x, y, z, v);
            }
        }
    }
    g
}

#[test]
fn new_cube_is_zero() {
    let g: Grid<i32> = Grid::new(3);
    assert_eq!(g.size(), 3);
    for x in 0..3 {
        for y in 0..3 {
            for z in 0..3 {
                assert_eq!(*g.read(x, y, z), 0);
            }
        }
    }
}

#[test]
fn write_then_read() {
    let mut g: Grid<i64> = Grid::new(4);
    g.write(1, 2, 3, 42);
    assert_eq!(*g.read(1, 2, 3), 42);
    assert_eq!(*g.read(3, 2, 1), 0);
    let mut h: Grid<u8> = Grid::new(2);
    h.write(1, 0, 1, 7);
    assert_eq!(*h.read(1, 0, 1), 7);
}

#[test]
fn stencil_is_rounded_average() {
    let mut g: Grid<i32> = Grid::new(3);
    g.write(1, 1, 1, 70);
    assert_eq!(stencil(&g, 1, 1, 1), 10);
    g.write(0, 1, 1, 6);
    assert_eq!(stencil(&g, 1, 1, 1), 10);
    g.write(1, 1, 1, -76);
    assert_eq!(stencil(&g, 1, 1, 1), -10);
}

#[test]
fn stencil_of_extreme_values_does_not_overflow() {
    let g = filled(3, i32::MAX);
    assert_eq!(stencil(&g, 1, 1, 1), i32::MAX);
    let h = filled(3, i32::MIN);
    assert_eq!(stencil(&h, 1, 1, 1), i32::MIN);
}

#[test]
fn step_updates_interior_only() {
    let n = 5;
    let mut read: Grid<i32> = Grid::new(n);
    read.write(1, 1, 1, 700);
    let mut write = filled(n, 3);
    jacobi_step(&read, &mut write);
    assert_eq!(*write.read(1, 1, 1), 100);
    assert_eq!(*write.read(2, 1, 1), 100);
    assert_eq!(*write.read(1, 2, 2), 0);
    assert_eq!(*write.read(2, 2, 2), 0);
    assert_eq!(*write.read(3, 1, 1), 3);
    assert_eq!(*write.read(0, 1, 1), 3);
    assert_eq!(*write.read(4, 4, 4), 3);
}

#[test]
fn step_on_small_cube_changes_nothing() {
    let read = filled(3, 9);
    let mut write = filled(3, 1);
    jacobi_step(&read, &mut write);
    assert_eq!(*write.read(1, 1, 1), 1);
    let read2 = filled(2, 9);
    let mut write2 = filled(2, 1);
    jacobi_step(&read2, &mut write2);
    assert_eq!(*write2.read(1, 1, 1), 1);
}

#[test]
fn run_alternates_between_grids() {
    let n = 5;
    let mut a: Grid<i32> = Grid::new(n);
    a.write(1, 1, 1, 700);
    let mut b: Grid<i32> = Grid::new(n);
    jacobi_run(&mut a, &mut b, 2);
    assert_eq!(*a.read(1, 1, 1), 0);
    assert_eq!(*b.read(1, 1, 1), 0);

    let mut a2: Grid<i32> = Grid::new(n);
    a2.write(1, 1, 1, 700);
    let mut b2: Grid<i32> = Grid::new(n);
    jacobi_run(&mut a2, &mut b2, 3);
    assert_eq!(*a2.read(1, 1, 1), 0);
    assert_eq!(*b2.read(1, 1, 1), 0);

    let mut a3: Grid<i32> = Grid::new(n);
    let mut b3: Grid<i32> = Grid::new(n);
    b3.write(1, 1, 1, 700);
    jacobi_run(&mut a3, &mut b3, 2);
    assert_eq!(*a3.read(1, 1, 1), 100);
    assert_eq!(*a3.read(2, 1, 1), 100);
}

#[test]
fn run_with_no_steps_changes_nothing() {
    let mut a = filled(4, 2);
    let mut b = filled(4, 5);
    jacobi_run(&mut a, &mut b, 0);
    jacobi_run(&mut a, &mut b, 1);
    assert_eq!(*a.read(1, 1, 1), 2);
    assert_eq!(*b.read(1, 1, 1), 5);
}

#[test]
fn uniform_field_is_steady() {
    let mut a = filled(6, -13);
    let mut b = filled(6, -13);
    jacobi_run(&mut a, &mut b, 7);
    for x in 0..6 {
        for y in 0..6 {
            for z in 0..6 {
                assert_eq!(*a.read(x, y, z), -13);
                assert_eq!(*b.read(x, y, z), -13);
            }
        }
    }
}

#[test]
fn values_stay_within_their_starting_bounds() {
    let n = 6;
    let mut a: Grid<i32> = Grid::new(n);
    let mut b: Grid<i32> = Grid::new(n);
    let mut v: i32 = 1;
    for x in 0..n {
        for y in 0..n {
            for z in 0..n {
                v = (v * 37 + 11).rem_euclid(201) - 100;
                a.write(x, y, z, v);
                b.write(x, y, z, -v);
            }
        }
    }
    jacobi_run(&mut a, &mut b, 9);
    for x in 0..n {
        for y in 0..n {
            for z in 0..n {
                assert!((-100..=100).contains(a.read(x, y, z)));
                assert!((-100..=100).contains(b.read(x, y, z)));
            }
        }
    }
}

#[test]
fn boundary_is_never_written() {
    let n = 5;
    let mut a = filled(n, 4);
    let mut b = filled(n, 8);
    a.write(0, 2, 2, 99);
    b.write(4, 4, 0, -99);
    jacobi_run(&mut a, &mut b, 6);
    assert_eq!(*a.read(0, 2, 2), 99);
    assert_eq!(*b.read(4, 4, 0), -99);
    assert_eq!(*a.read(3, 3, 3), 4);
    assert_eq!(*b.read(3, 3, 3), 8);
}
