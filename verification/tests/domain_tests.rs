use jacobi::domain::Domain;

fn square(n: i64) -> Domain {
    Domain::new_from_ranges(&vec![0..n, 0..n])
}

#[test]
fn bounds_are_inclusive() {
    let d = Domain::new_from_bounds(&vec![0, 1], &vec![2, 3]);
    assert_eq!(d.dim(), 2);
    assert_eq!(d.dim_range(0), 0..3);
    assert_eq!(d.dim_range(1), 1..4);
    assert_eq!(d.size(), 9);
}

#[test]
fn ranges_are_kept() {
    let d = Domain::new_from_ranges(&vec![2..5, -1..1, 7..8]);
    assert_eq!(d.dim(), 3);
    assert_eq!(d.dim_range(0), 2..5);
    assert_eq!(d.dim_range(1), -1..1);
    assert_eq!(d.dim_range(2), 7..8);
    assert_eq!(d.size_of_dim(0), 3);
    assert_eq!(d.size_of_dim(1), 2);
    assert_eq!(d.size_of_dim(2), 1);
    assert_eq!(d.size(), 6);
}

#[test]
fn empty_and_reversed_ranges_count_zero() {
    let d = Domain::new_from_ranges(&vec![3..3, 0..4]);
    assert_eq!(d.size_of_dim(0), 0);
    assert_eq!(d.size(), 0);
    assert!(d.has_empty_range());
    let r = Domain::new_from_ranges(&vec![0..4, 5..2]);
    assert_eq!(r.size_of_dim(1), 0);
    assert_eq!(r.size(), 0);
    assert!(!square(3).has_empty_range());
}

#[test]
fn zero_dimensional_domain_has_one_point() {
    let d = Domain::new_from_ranges(&vec![]);
    assert_eq!(d.dim(), 0);
    assert_eq!(d.size(), 1);
}

#[test]
fn intersect_takes_later_start_and_earlier_end() {
    let a = square(4);
    let b = Domain::new_from_ranges(&vec![1..3, 2..6]);
    let c = a.intersect(&b);
    assert_eq!(c.dim_range(0), 1..3);
    assert_eq!(c.dim_range(1), 2..4);
    let disjoint = Domain::new_from_ranges(&vec![5..9, 0..1]);
    let e = a.intersect(&disjoint);
    assert_eq!(e.dim_range(0), 5..4);
    assert_eq!(e.size(), 0);
}

#[test]
fn subdomain_checks() {
    let a = square(4);
    let b = Domain::new_from_ranges(&vec![1..3, 0..4]);
    let c = Domain::new_from_ranges(&vec![1..3, 1..3]);
    assert!(b.is_subdomain(&a));
    assert!(!a.is_subdomain(&b));
    assert!(a.is_subdomain(&a));
    assert!(!b.is_strict_subdomain(&a));
    assert!(c.is_strict_subdomain(&a));
    assert!(!a.is_strict_subdomain(&a));
    let other_dim = Domain::new_from_ranges(&vec![1..3]);
    assert!(!other_dim.is_subdomain(&a));
    assert!(!other_dim.is_strict_subdomain(&a));
}

#[test]
fn equality_compares_every_range() {
    let a = square(4);
    assert!(a == a.clone());
    assert!(a == Domain::new_from_bounds(&vec![0, 0], &vec![3, 3]));
    assert!(a != square(5));
    assert!(a != Domain::new_from_ranges(&vec![0..4]));
    assert!(a != Domain::new_from_ranges(&vec![0..4, 1..4]));
}

#[test]
fn flat_idx_is_row_major() {
    let d = square(4);
    assert_eq!(d.flat_idx(&[0, 0]), 0);
    assert_eq!(d.flat_idx(&[0, 3]), 3);
    assert_eq!(d.flat_idx(&[1, 2]), 6);
    assert_eq!(d.flat_idx(&[3, 3]), 15);
    let shifted = Domain::new_from_ranges(&vec![10..13, -2..2]);
    assert_eq!(shifted.flat_idx(&[10, -2]), 0);
    assert_eq!(shifted.flat_idx(&[11, 1]), 7);
    assert_eq!(shifted.flat_idx(&[12, 1]), 11);
}

#[test]
fn flat_idx_numbers_points_one_to_one() {
    let d = Domain::new_from_ranges(&vec![-1..2, 3..7]);
    let mut seen = vec![false; d.size()];
    for x in -1..2 {
        for y in 3..7 {
            let i = d.flat_idx(&[x, y]);
            assert!(i < d.size());
            assert!(!seen[i]);
            seen[i] = true;
        }
    }
    assert!(seen.iter().all(|s| *s));
}

#[test]
fn split_cuts_first_dimension_into_slabs() {
    let d = Domain::new_from_ranges(&vec![0..10, 0..3]);
    let parts = d.split(4);
    assert_eq!(parts.len(), 4);
    assert_eq!(parts[0].dim_range(0), 0..3);
    assert_eq!(parts[1].dim_range(0), 3..6);
    assert_eq!(parts[2].dim_range(0), 6..9);
    assert_eq!(parts[3].dim_range(0), 9..10);
    for p in &parts {
        assert_eq!(p.dim_range(1), 0..3);
        assert!(p.is_subdomain(&d));
    }
}

#[test]
fn split_can_leave_empty_slabs() {
    let d = square(6);
    let parts = d.split(4);
    assert_eq!(parts.len(), 4);
    assert_eq!(parts[0].dim_range(0), 0..2);
    assert_eq!(parts[2].dim_range(0), 4..6);
    assert_eq!(parts[3].dim_range(0), 6..6);
    assert_eq!(parts[3].size(), 0);
    let many = Domain::new_from_ranges(&vec![0..3]).split(5);
    assert_eq!(many[0].dim_range(0), 0..1);
    assert_eq!(many[2].dim_range(0), 2..3);
    assert_eq!(many[3].dim_range(0), 3..3);
    assert_eq!(many[4].dim_range(0), 4..3);
}

#[test]
fn split_into_no_parts_is_empty() {
    assert_eq!(square(4).split(0).len(), 0);
}

#[test]
fn split_into_one_part_is_the_domain() {
    let d = Domain::new_from_ranges(&vec![2..9, 1..4]);
    let parts = d.split(1);
    assert_eq!(parts.len(), 1);
    assert!(parts[0] == d);
}

#[test]
fn split_parts_cover_every_point_once() {
    let d = Domain::new_from_ranges(&vec![-3..8, 0..2]);
    for n in 1..14 {
        let parts = d.split(n);
        for x in -3..8 {
            let holders = parts
                .iter()
                .filter(|p| p.dim_range(0).start <= x && x < p.dim_range(0).end)
                .count();
            assert_eq!(holders, 1);
        }
    }
}

#[test]
fn traversal_is_row_major() {
    let d = Domain::new_from_ranges(&vec![0..2, 5..7]);
    let mut it = d.iter();
    assert_eq!(it.next(), Some(vec![0, 5]));
    assert_eq!(it.next(), Some(vec![0, 6]));
    assert_eq!(it.next(), Some(vec![1, 5]));
    assert_eq!(it.next(), Some(vec![1, 6]));
    assert_eq!(it.next(), None);
    assert_eq!(it.next(), Some(vec![0, 6]));
}

#[test]
fn traversal_hands_out_points_in_flat_order() {
    let d = Domain::new_from_ranges(&vec![1..3, -1..2, 4..6]);
    let mut it = d.iter();
    let mut k = 0;
    while let Some(p) = it.next() {
        assert_eq!(d.flat_idx(&p[..]), k);
        k += 1;
    }
    assert_eq!(k, d.size());
}

#[test]
fn traversal_of_one_dimension() {
    let d = Domain::new_from_ranges(&vec![3..5]);
    let mut it = d.iter();
    assert_eq!(it.next(), Some(vec![3]));
    assert_eq!(it.next(), Some(vec![4]));
    assert_eq!(it.next(), None);
}

#[test]
fn traversal_of_empty_domain_steps_the_odometer() {
    let clean = Domain::new_from_ranges(&vec![0..1, 5..5]);
    assert_eq!(clean.iter().next(), None);
    let d = Domain::new_from_ranges(&vec![0..2, 5..5]);
    let mut it = d.iter();
    assert_eq!(it.next(), Some(vec![1, 5]));
    assert_eq!(it.next(), None);
}

#[test]
fn traversal_checks() {
    assert!(square(3).is_traversable());
    assert!(square(3).traversal_is_safe());
    assert!(!Domain::new_from_ranges(&vec![]).is_traversable());
    assert!(!Domain::new_from_ranges(&vec![]).traversal_is_safe());
    assert!(!Domain::new_from_ranges(&vec![0..2, i64::MIN..0]).is_traversable());
    assert!(Domain::new_from_ranges(&vec![i64::MAX..i64::MAX, 0..2]).is_traversable());
    assert!(!Domain::new_from_ranges(&vec![i64::MAX..i64::MAX, 0..2]).traversal_is_safe());
    assert!(Domain::new_from_ranges(&vec![i64::MAX..i64::MAX]).traversal_is_safe());
    assert!(!Domain::new_from_ranges(&vec![i64::MAX..i64::MAX, 5..5]).traversal_is_safe());
    assert!(Domain::new_from_ranges(&vec![0..1, 5..5]).traversal_is_safe());
    assert!(Domain::new_from_ranges(&vec![4..2, 5..5]).traversal_is_safe());
    assert!(!Domain::new_from_ranges(&vec![0..2, 5..5]).traversal_is_safe());
    assert!(!Domain::new_from_ranges(&vec![6..6, 0..6]).traversal_is_safe());
}

#[test]
fn intersection_lies_inside_both() {
    let a = Domain::new_from_ranges(&vec![0..5, -3..3]);
    let b = Domain::new_from_ranges(&vec![2..9, 1..2]);
    let c = a.intersect(&b);
    assert!(c.is_subdomain(&a));
    assert!(c.is_subdomain(&b));
    let far = Domain::new_from_ranges(&vec![7..9, 4..6]);
    let e = a.intersect(&far);
    assert!(e.is_subdomain(&a));
    assert!(e.is_subdomain(&far));
}

#[test]
fn flat_idx_of_arguments_outside_the_domain() {
    let d = square(4);
    assert_eq!(d.flat_idx(&[0, 5]), 5);
    assert_eq!(d.flat_idx(&[2, -1]), 7);
    assert_eq!(d.flat_idx(&[-1, 0]), usize::MAX - 3);
}

#[test]
fn split_safety_check() {
    assert!(square(4).split_is_safe(3));
    assert!(square(4).split_is_safe(0));
    assert!(!Domain::new_from_ranges(&vec![]).split_is_safe(2));
    let wide = Domain::new_from_ranges(&vec![i64::MAX - 5..i64::MAX]);
    assert!(wide.split_is_safe(5));
    assert!(!wide.split_is_safe(6));
    let huge = Domain::new_from_ranges(&vec![i64::MIN..i64::MAX]);
    assert!(!huge.split_is_safe(1));
    assert!(!huge.split_is_safe(2));
    assert!(huge.split_is_safe(3));
}

#[test]
fn traversal_of_range_starting_at_max() {
    let d = Domain::new_from_ranges(&vec![i64::MAX..i64::MAX]);
    let mut it = d.iter();
    assert!(it.can_step());
    assert_eq!(it.next(), None);
    assert!(!it.can_step());
}

#[test]
fn step_safety_follows_the_carry() {
    let d = Domain::new_from_ranges(&vec![i64::MAX..i64::MAX, 0..2]);
    let mut it = d.iter();
    assert!(it.can_step());
    assert_eq!(it.next(), Some(vec![i64::MAX, 0]));
    assert!(it.can_step());
    assert_eq!(it.next(), Some(vec![i64::MAX, 1]));
    assert!(!it.can_step());
}

#[test]
fn products_fit_check() {
    assert!(square(4).products_fit());
    let big = Domain::new_from_ranges(&vec![0..i64::MAX, 0..i64::MAX, 0..0]);
    assert!(!big.products_fit());
    assert!(Domain::new_from_ranges(&vec![0..0, 0..i64::MAX, 0..i64::MAX]).products_fit());
}
