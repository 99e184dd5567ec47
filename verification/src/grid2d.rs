//! Grids laid out over a domain, and grids cut into parts along the first
//! dimension so that each part can be swept on its own.

use vstd::prelude::*;
use vstd::arithmetic::mul::lemma_mul_basics;
use std::ops::Range;
use crate::domain::Domain;
use crate::domain_iter::{traversable, traversal_safe};
use crate::index_math::{
    lemma_prefix_times_suffix, size_prefix,
    all_nonempty, contains_point, domain_size, flat_index, intersect_domains, lemma_flat_bounds,
    lemma_flat_index_injective, lemma_odometer_safe_on_track, lemma_point_at, lemma_point_flat_fits, point_at, lemma_point_nonempty, lemma_split_covers, lemma_split_part_inside,
    lemma_subdomain_products, products_bounded, split_fits, split_part, subdomain_of,
};

verus! {

/// `v` is a value that `T::default()` may return.
pub open spec fn is_default<T: Default>(v: T) -> bool {
    call_ensures(T::default, (), v)
}

/// Values laid out row-major over the points of a domain (the last
/// dimension varying fastest), together with a second domain that marks the
/// points a sweep updates.
pub struct Grid<T> {
    domain: Domain,
    iter_domain: Domain,
    grid: Vec<T>,
}

impl<T> Grid<T> {
    /// The domain the values are laid out over.
    pub closed spec fn domain_view(&self) -> Seq<Range<i64>> {
        self.domain@
    }

    /// The domain of the points a sweep updates.
    pub closed spec fn iter_domain_view(&self) -> Seq<Range<i64>> {
        self.iter_domain@
    }

    /// The values, in row-major order.
    pub closed spec fn cells(&self) -> Seq<T> {
        self.grid@
    }

    /// One value per point of the domain, and a domain small enough that
    /// its row-major positions fit in `i64` and `usize`.
    pub open spec fn wf(&self) -> bool {
        &&& self.cells().len() == domain_size(self.domain_view())
        &&& domain_size(self.domain_view()) <= i64::MAX
        &&& domain_size(self.domain_view()) <= usize::MAX
        &&& products_bounded(self.domain_view(), usize::MAX as int)
    }

    /// The value at the point `p` of the domain.
    pub open spec fn value_at(&self, p: Seq<i64>) -> T {
        self.cells()[flat_index(self.domain_view(), p)]
    }
}

/// `s` is what `subgrid` makes of `g` for the domain `sub`: `g` itself when
/// `sub` is the whole domain; otherwise a grid over `sub`, whose sweep domain
/// is that of `g` cut down to `sub`, holding the value of `g` at each point
/// of `sub`.
pub open spec fn is_subgrid<T>(s: Grid<T>, g: Grid<T>, sub: Seq<Range<i64>>) -> bool {
    &&& s.wf()
    &&& if sub == g.domain_view() {
        &&& s.domain_view() == g.domain_view()
        &&& s.iter_domain_view() == g.iter_domain_view()
        &&& s.cells() == g.cells()
    } else {
        &&& s.domain_view() == sub
        &&& s.iter_domain_view() == intersect_domains(g.iter_domain_view(), sub)
        &&& forall|p: Seq<i64>| contains_point(sub, p) ==> #[trigger] s.value_at(p) == g.value_at(p)
    }
}

/// The value that the parts `parts[0..j]` give the point `p` when they are
/// copied in order into one grid: that of the last part holding `p`, or
/// nothing when no part holds it.
pub open spec fn assembled<T>(parts: Seq<Grid<T>>, p: Seq<i64>, j: int) -> Option<T>
    decreases j,
{
    if j <= 0 {
        None
    } else if contains_point(parts[j - 1].domain_view(), p) {
        Some(parts[j - 1].value_at(p))
    } else {
        assembled(parts, p, j - 1)
    }
}

/// Every point of the domain of `g` holds what the parts `parts[0..j]` give
/// it, or a default value where no part holds it.
pub open spec fn agrees_with_parts<T: Default>(g: Grid<T>, parts: Seq<Grid<T>>, j: int) -> bool {
    forall|p: Seq<i64>| #[trigger] contains_point(g.domain_view(), p) ==> match assembled(parts, p, j) {
        Some(v) => g.value_at(p) == v,
        None => is_default(g.value_at(p)),
    }
}

/// A vector of `n` copies of `v`.
pub(crate) fn filled<T: Copy>(n: usize, v: T) -> (r: Vec<T>)
    ensures
        r@.len() == n,
        forall|i: int| 0 <= i < n ==> #[trigger] r@[i] == v,
{
    let mut r: Vec<T> = Vec::new();
    for k in 0..n
        invariant
            r@.len() == k,
            forall|i: int| 0 <= i < k ==> #[trigger] r@[i] == v,
    {
        r.push(v);
    }
    r
}

/// A point of a domain is a point of every domain that holds it.
proof fn lemma_point_of_superdomain(a: Seq<Range<i64>>, b: Seq<Range<i64>>, p: Seq<i64>)
    requires
        subdomain_of(a, b),
        contains_point(a, p),
    ensures
        contains_point(b, p),
{
    assert forall|i: int| #![trigger p[i]] 0 <= i < b.len() implies b[i].start <= p[i] < b[i].end by {
        assert(b[i].start <= a[i].start && a[i].end <= b[i].end);
    }
}

impl<T: Copy + Default> Grid<T> {
    /// A grid over `domain`, every value a default one.
    pub fn new_from_domain(domain: &Domain, iter_domain: &Domain) -> (g: Grid<T>)
        requires
            products_bounded(domain@, usize::MAX as int),
            domain_size(domain@) <= i64::MAX,
        ensures
            g.wf(),
            g.domain_view() == domain@,
            g.iter_domain_view() == iter_domain@,
            forall|i: int| 0 <= i < g.cells().len() ==> is_default(#[trigger] g.cells()[i]),
    {
        let n = domain.size();
        let d = T::default();
        Grid { domain: domain.clone(), iter_domain: iter_domain.clone(), grid: filled(n, d) }
    }

    /// The grid over `part_grid`'s whole domain that holds, at each point,
    /// the value of the last part that holds the point, and a default value
    /// where no part does.
    pub fn new_from_partitioned_grid(part_grid: &PartitionedGrid<T>) -> (g: Grid<T>)
        requires
            part_grid.wf(),
            products_bounded(part_grid.full_domain_view(), usize::MAX as int),
            domain_size(part_grid.full_domain_view()) <= i64::MAX,
            forall|k: int| 0 <= k < part_grid.parts().len() ==> traversal_safe(
                #[trigger] part_grid.parts()[k].domain_view(),
            ),
        ensures
            g.wf(),
            g.domain_view() == part_grid.full_domain_view(),
            g.iter_domain_view() == part_grid.iter_domain_view(),
            agrees_with_parts(g, part_grid.parts(), part_grid.parts().len() as int),
    {
        let mut grid: Grid<T> = Grid::new_from_domain(&part_grid.full_domain, &part_grid.iter_domain);
        let ghost parts = part_grid.parts();
        let ghost full = part_grid.full_domain_view();
        proof {
            assert forall|p: Seq<i64>| #[trigger] contains_point(grid.domain_view(), p) implies match assembled(parts, p, 0) {
                Some(v) => grid.value_at(p) == v,
                None => is_default(grid.value_at(p)),
            } by {
                lemma_flat_bounds(full, p, 0);
            }
        }
        let n = part_grid.grids.len();
        for j in 0..n
            invariant
                n == parts.len(),
                parts == part_grid.parts(),
                full == part_grid.full_domain_view(),
                part_grid.wf(),
                forall|k: int| 0 <= k < parts.len() ==> traversal_safe(#[trigger] parts[k].domain_view()),
                grid.wf(),
                grid.domain_view() == full,
                grid.iter_domain_view() == part_grid.iter_domain_view(),
                agrees_with_parts(grid, parts, j as int),
        {
            assert(part_grid.parts()[j as int].wf());
            assert(subdomain_of(part_grid.parts()[j as int].domain_view(), full));
            let subgrid = &part_grid.grids[j];
            assert(traversal_safe(parts[j as int].domain_view()));
            let ghost sub = subgrid.domain_view();
            if !subgrid.domain.has_empty_range() {
                let mut it = subgrid.domain.iter();
                let ghost start_grid = grid;
                proof {
                    assert forall|p: Seq<i64>| #[trigger] contains_point(full, p) implies
                        if contains_point(sub, p) && flat_index(sub, p) <= it.position() {
                            grid.value_at(p) == subgrid.value_at(p)
                        } else {
                            grid.value_at(p) == start_grid.value_at(p)
                        } by {
                        if contains_point(sub, p) {
                            lemma_flat_bounds(sub, p, 0);
                        }
                    }
                }
                loop
                    invariant_except_break
                        it.ranges() == sub,
                        it.on_track(),
                        -1 <= it.position() < domain_size(sub),
                        forall|p: Seq<i64>| #[trigger] contains_point(full, p) ==>
                            if contains_point(sub, p) && flat_index(sub, p) <= it.position() {
                                grid.value_at(p) == subgrid.value_at(p)
                            } else {
                                grid.value_at(p) == start_grid.value_at(p)
                            },
                    invariant
                        all_nonempty(sub),
                        traversable(sub),
                        sub == subgrid.domain_view(),
                        subgrid.wf(),
                        subdomain_of(sub, full),
                        grid.wf(),
                        grid.domain_view() == full,
                        grid.iter_domain_view() == part_grid.iter_domain_view(),
                        start_grid.domain_view() == full,
                    ensures
                        forall|p: Seq<i64>| #[trigger] contains_point(full, p) ==>
                            if contains_point(sub, p) {
                                grid.value_at(p) == subgrid.value_at(p)
                            } else {
                                grid.value_at(p) == start_grid.value_at(p)
                            },
                    decreases domain_size(sub) - it.position(),
                {
                    let ghost pos = it.position();
                    proof {
                        lemma_odometer_safe_on_track(sub, it.current());
                    }
                    match it.next() {
                        None => {
                            proof {
                                assert forall|p: Seq<i64>| #[trigger] contains_point(full, p) implies
                                    if contains_point(sub, p) {
                                        grid.value_at(p) == subgrid.value_at(p)
                                    } else {
                                        grid.value_at(p) == start_grid.value_at(p)
                                    } by {
                                    if contains_point(sub, p) {
                                        lemma_flat_bounds(sub, p, 0);
                                    }
                                }
                            }
                            break;
                        },
                        Some(idx) => {
                            proof {
                                lemma_point_of_superdomain(sub, full, idx@);
                                lemma_flat_bounds(sub, idx@, 0);
                                lemma_flat_bounds(full, idx@, 0);
                                lemma_point_flat_fits(sub, idx@);
                                lemma_point_flat_fits(full, idx@);
                            }
                            let v = subgrid.grid[subgrid.domain.flat_idx(idx.as_slice())];
                            let f = grid.domain.flat_idx(idx.as_slice());
                            let ghost before = grid;
                            grid.grid.set(f, v);
                            proof {
                                assert forall|p: Seq<i64>| #[trigger] contains_point(full, p) implies
                                    if contains_point(sub, p) && flat_index(sub, p) <= it.position() {
                                        grid.value_at(p) == subgrid.value_at(p)
                                    } else {
                                        grid.value_at(p) == start_grid.value_at(p)
                                    } by {
                                    lemma_flat_bounds(full, p, 0);
                                    if p != idx@ {
                                        lemma_flat_index_injective(full, p, idx@);
                                        assert(grid.value_at(p) == before.value_at(p));
                                        if contains_point(sub, p) {
                                            lemma_flat_index_injective(sub, p, idx@);
                                        }
                                    }
                                }
                            }
                        },
                    }
                }
            }
            proof {
                assert forall|p: Seq<i64>| #[trigger] contains_point(grid.domain_view(), p) implies match assembled(parts, p, j + 1) {
                    Some(v) => grid.value_at(p) == v,
                    None => is_default(grid.value_at(p)),
                } by {
                    if contains_point(sub, p) {
                        lemma_point_nonempty(sub, p);
                    }
                }
            }
        }
        grid
    }

    /// The part of this grid that lies over `subdomain`: this grid itself when
    /// `subdomain` is its whole domain, otherwise a grid over `subdomain`
    /// with the values of this grid there.
    pub fn subgrid(&self, subdomain: &Domain) -> (s: Grid<T>)
        requires
            self.wf(),
            subdomain_of(subdomain@, self.domain_view()),
            subdomain@ != self.domain_view() ==> self.iter_domain_view().len() == subdomain@.len()
                && traversal_safe(subdomain@),
        ensures
            is_subgrid(s, *self, subdomain@),
    {
        if self.domain == *subdomain {
            return self.clone();
        }
        proof {
            lemma_subdomain_products(subdomain@, self.domain@);
        }
        let ghost sub = subdomain@;
        let ghost dom = self.domain_view();
        let mut s: Grid<T> = Grid::new_from_domain(subdomain, &self.iter_domain.intersect(subdomain));
        if subdomain.has_empty_range() {
            proof {
                assert forall|p: Seq<i64>| #[trigger] contains_point(sub, p) implies s.value_at(p) == self.value_at(p) by {
                    lemma_point_nonempty(sub, p);
                }
            }
            return s;
        }
        let mut it = subdomain.iter();
        proof {
            assert forall|p: Seq<i64>| #[trigger] contains_point(sub, p) && flat_index(sub, p) <= it.position()
                implies s.value_at(p) == self.value_at(p) by {
                lemma_flat_bounds(sub, p, 0);
            }
        }
        loop
            invariant_except_break
                it.ranges() == sub,
                it.on_track(),
                -1 <= it.position() < domain_size(sub),
                forall|p: Seq<i64>| #[trigger] contains_point(sub, p) && flat_index(sub, p) <= it.position()
                    ==> s.value_at(p) == self.value_at(p),
            invariant
                all_nonempty(sub),
                traversable(sub),
                sub == subdomain@,
                dom == self.domain_view(),
                self.wf(),
                subdomain_of(sub, dom),
                s.wf(),
                s.domain_view() == sub,
                s.iter_domain_view() == intersect_domains(self.iter_domain_view(), sub),
            ensures
                forall|p: Seq<i64>| #[trigger] contains_point(sub, p) ==> s.value_at(p) == self.value_at(p),
            decreases domain_size(sub) - it.position(),
        {
            proof {
                lemma_odometer_safe_on_track(sub, it.current());
            }
            match it.next() {
                None => {
                    proof {
                        assert forall|p: Seq<i64>| #[trigger] contains_point(sub, p) implies s.value_at(p) == self.value_at(p) by {
                            lemma_flat_bounds(sub, p, 0);
                        }
                    }
                    break;
                },
                Some(idx) => {
                    proof {
                        lemma_point_of_superdomain(sub, dom, idx@);
                        lemma_flat_bounds(sub, idx@, 0);
                        lemma_flat_bounds(dom, idx@, 0);
                        lemma_point_flat_fits(sub, idx@);
                        lemma_point_flat_fits(dom, idx@);
                    }
                    let v = self.grid[self.domain.flat_idx(idx.as_slice())];
                    let f = s.domain.flat_idx(idx.as_slice());
                    let ghost before = s;
                    s.grid.set(f, v);
                    proof {
                        assert forall|p: Seq<i64>| #[trigger] contains_point(sub, p) && flat_index(sub, p) <= it.position()
                            implies s.value_at(p) == self.value_at(p) by {
                            lemma_flat_bounds(sub, p, 0);
                            if p != idx@ {
                                lemma_flat_index_injective(sub, p, idx@);
                            }
                        }
                    }
                },
            }
        }
        s
    }
}

impl<T> Grid<T> {
    /// Whether the grid is well formed: one value per point, and a domain
    /// whose running products fit in `usize` and whose size fits in `i64`.
    pub fn is_well_formed(&self) -> (b: bool)
        ensures
            b == self.wf(),
    {
        if !self.domain.products_fit() {
            return false;
        }
        let n = self.domain.size();
        proof {
            lemma_prefix_times_suffix(self.domain_view(), self.domain_view().len());
            lemma_mul_basics(size_prefix(self.domain_view(), self.domain_view().len()) as int);
        }
        (n as u128) <= (i64::MAX as u128) && self.grid.len() == n
    }
}

impl<T: Copy> Grid<T> {
    /// The domain the values are laid out over.
    pub fn domain(&self) -> (d: &Domain)
        ensures
            d@ == self.domain_view(),
    {
        &self.domain
    }

    /// The domain of the points a sweep updates.
    pub fn iter_domain(&self) -> (d: &Domain)
        ensures
            d@ == self.iter_domain_view(),
    {
        &self.iter_domain
    }

    /// The value at the point `idx`.
    pub fn get(&self, idx: &[i64]) -> (v: T)
        requires
            self.wf(),
            contains_point(self.domain_view(), idx@),
        ensures
            v == self.value_at(idx@),
    {
        proof {
            lemma_flat_bounds(self.domain_view(), idx@, 0);
            lemma_point_flat_fits(self.domain_view(), idx@);
        }
        self.grid[self.domain.flat_idx(idx)]
    }

    /// Stores `value` at the point `idx`; every other point keeps its value.
    pub fn set(&mut self, idx: &[i64], value: T)
        requires
            old(self).wf(),
            contains_point(old(self).domain_view(), idx@),
        ensures
            final(self).wf(),
            final(self).domain_view() == old(self).domain_view(),
            final(self).iter_domain_view() == old(self).iter_domain_view(),
            final(self).value_at(idx@) == value,
            forall|p: Seq<i64>| #[trigger] contains_point(old(self).domain_view(), p) && p != idx@
                ==> final(self).value_at(p) == old(self).value_at(p),
    {
        proof {
            lemma_flat_bounds(self.domain_view(), idx@, 0);
            lemma_point_flat_fits(self.domain_view(), idx@);
        }
        let f = self.domain.flat_idx(idx);
        self.grid.set(f, value);
        proof {
            assert forall|p: Seq<i64>| #[trigger] contains_point(old(self).domain_view(), p) && p != idx@
                implies self.value_at(p) == old(self).value_at(p) by {
                lemma_flat_bounds(self.domain_view(), p, 0);
                lemma_flat_index_injective(self.domain_view(), p, idx@);
            }
        }
    }
}

impl<T: Copy> Clone for Grid<T> {
    fn clone(&self) -> (g: Self)
        ensures
            g.domain_view() == self.domain_view(),
            g.iter_domain_view() == self.iter_domain_view(),
            g.cells() == self.cells(),
    {
        let n = self.grid.len();
        let mut cells: Vec<T> = Vec::new();
        for k in 0..n
            invariant
                n == self.grid@.len(),
                cells@ == self.grid@.take(k as int),
        {
            cells.push(self.grid[k]);
            assert(cells@ =~= self.grid@.take(k + 1));
        }
        assert(self.grid@.take(n as int) =~= self.grid@);
        Grid { domain: self.domain.clone(), iter_domain: self.iter_domain.clone(), grid: cells }
    }
}

/// Every grid of `parts` is well formed and lies inside `full`.
pub open spec fn parts_within<T>(parts: Seq<Grid<T>>, full: Seq<Range<i64>>) -> bool {
    forall|k: int| 0 <= k < parts.len() ==> #[trigger] parts[k].wf() && subdomain_of(parts[k].domain_view(), full)
}

/// A grid cut into parts along its first dimension, each part a grid of its
/// own.
pub struct PartitionedGrid<T> {
    full_domain: Domain,
    iter_domain: Domain,
    grids: Vec<Grid<T>>,
}

impl<T> PartitionedGrid<T> {
    /// The domain of the whole grid.
    pub closed spec fn full_domain_view(&self) -> Seq<Range<i64>> {
        self.full_domain@
    }

    /// The domain of the points a sweep of the whole grid updates.
    pub closed spec fn iter_domain_view(&self) -> Seq<Range<i64>> {
        self.iter_domain@
    }

    /// The parts.
    pub closed spec fn parts(&self) -> Seq<Grid<T>> {
        self.grids@
    }

    /// Every part is well formed and lies inside the whole domain.
    pub open spec fn wf(&self) -> bool {
        parts_within(self.parts(), self.full_domain_view())
    }
}

/// `pg` is what `new_from_grid` makes of `g` cut into `n` parts: the whole
/// and sweep domains of `g`, and for each slab of the split the subgrid of
/// `g` over it.
pub open spec fn is_partition_of<T>(pg: PartitionedGrid<T>, g: Grid<T>, n: nat) -> bool {
    &&& pg.wf()
    &&& pg.full_domain_view() == g.domain_view()
    &&& pg.iter_domain_view() == g.iter_domain_view()
    &&& pg.parts().len() == n
    &&& forall|k: int| 0 <= k < n ==> is_subgrid(#[trigger] pg.parts()[k], g, split_part(g.domain_view(), n, k))
}

impl<T: Copy + Default> PartitionedGrid<T> {
    /// `domain` cut into `partitions` slabs along its first dimension, each
    /// a grid of default values whose sweep domain is `iter_domain` cut down
    /// to the slab.
    pub fn new_from_domain(domain: &Domain, iter_domain: &Domain, partitions: usize) -> (pg: PartitionedGrid<T>)
        requires
            domain@.len() >= 1,
            split_fits(domain@, partitions as nat),
            partitions > 0 ==> iter_domain@.len() == domain@.len(),
            forall|k: int| 0 <= k < partitions ==> products_bounded(
                #[trigger] split_part(domain@, partitions as nat, k),
                usize::MAX as int,
            ) && domain_size(split_part(domain@, partitions as nat, k)) <= i64::MAX,
        ensures
            pg.wf(),
            pg.full_domain_view() == domain@,
            pg.iter_domain_view() == iter_domain@,
            pg.parts().len() == partitions,
            forall|k: int| 0 <= k < partitions ==> {
                &&& (#[trigger] pg.parts()[k]).domain_view() == split_part(domain@, partitions as nat, k)
                &&& pg.parts()[k].iter_domain_view() == intersect_domains(
                    iter_domain@,
                    split_part(domain@, partitions as nat, k),
                )
                &&& forall|i: int| 0 <= i < pg.parts()[k].cells().len() ==> is_default(
                    #[trigger] pg.parts()[k].cells()[i],
                )
            },
    {
        let domains = domain.split(partitions);
        let mut grids: Vec<Grid<T>> = Vec::new();
        for k in 0..partitions
            invariant
                domains@.len() == partitions,
                domain@.len() >= 1,
                split_fits(domain@, partitions as nat),
                partitions > 0 ==> iter_domain@.len() == domain@.len(),
                forall|k: int| 0 <= k < partitions ==> #[trigger] domains@[k]@ == split_part(domain@, partitions as nat, k),
                forall|k: int| 0 <= k < partitions ==> products_bounded(
                    #[trigger] split_part(domain@, partitions as nat, k),
                    usize::MAX as int,
                ) && domain_size(split_part(domain@, partitions as nat, k)) <= i64::MAX,
                grids@.len() == k,
                forall|m: int| 0 <= m < k ==> {
                    &&& (#[trigger] grids@[m]).wf()
                    &&& grids@[m].domain_view() == split_part(domain@, partitions as nat, m)
                    &&& subdomain_of(grids@[m].domain_view(), domain@)
                    &&& grids@[m].iter_domain_view() == intersect_domains(
                        iter_domain@,
                        split_part(domain@, partitions as nat, m),
                    )
                    &&& forall|i: int| 0 <= i < grids@[m].cells().len() ==> is_default(
                        #[trigger] grids@[m].cells()[i],
                    )
                },
        {
            let part = &domains[k];
            proof {
                lemma_split_part_inside(domain@, partitions as nat, k as int);
            }
            let g: Grid<T> = Grid::new_from_domain(part, &iter_domain.intersect(part));
            grids.push(g);
        }
        PartitionedGrid { full_domain: domain.clone(), iter_domain: iter_domain.clone(), grids }
    }

    /// `grid` cut into `partitions` slabs along its first dimension, each
    /// part the subgrid of `grid` over its slab.
    pub fn new_from_grid(grid: &Grid<T>, partitions: usize) -> (pg: PartitionedGrid<T>)
        requires
            grid.wf(),
            grid.domain_view().len() >= 1,
            split_fits(grid.domain_view(), partitions as nat),
            forall|k: int| 0 <= k < partitions ==> #[trigger] split_part(grid.domain_view(), partitions as nat, k)
                != grid.domain_view() ==> grid.iter_domain_view().len() == grid.domain_view().len()
                && traversal_safe(split_part(grid.domain_view(), partitions as nat, k)),
        ensures
            is_partition_of(pg, *grid, partitions as nat),
    {
        let ghost dom = grid.domain_view();
        let domains = grid.domain.split(partitions);
        let mut grids: Vec<Grid<T>> = Vec::new();
        for k in 0..partitions
            invariant
                dom == grid.domain_view(),
                grid.wf(),
                domains@.len() == partitions,
                dom.len() >= 1,
                split_fits(dom, partitions as nat),
                forall|k: int| 0 <= k < partitions ==> #[trigger] domains@[k]@ == split_part(dom, partitions as nat, k),
                forall|k: int| 0 <= k < partitions ==> #[trigger] split_part(dom, partitions as nat, k) != dom
                    ==> grid.iter_domain_view().len() == dom.len() && traversal_safe(split_part(dom, partitions as nat, k)),
                grids@.len() == k,
                forall|m: int| 0 <= m < k ==> is_subgrid(#[trigger] grids@[m], *grid, split_part(dom, partitions as nat, m))
                    && subdomain_of(grids@[m].domain_view(), dom),
        {
            let part = &domains[k];
            proof {
                lemma_split_part_inside(dom, partitions as nat, k as int);
            }
            let s = grid.subgrid(part);
            grids.push(s);
        }
        PartitionedGrid { full_domain: grid.domain.clone(), iter_domain: grid.iter_domain.clone(), grids }
    }
}

impl<T> PartitionedGrid<T> {
    /// The parts.
    pub fn grids(&self) -> (g: &Vec<Grid<T>>)
        ensures
            g@ == self.parts(),
    {
        &self.grids
    }

    /// Puts `grids` in place of the parts.
    pub fn set_grids(&mut self, grids: Vec<Grid<T>>)
        requires
            parts_within(grids@, old(self).full_domain_view()),
        ensures
            final(self).wf(),
            final(self).parts() == grids@,
            final(self).full_domain_view() == old(self).full_domain_view(),
            final(self).iter_domain_view() == old(self).iter_domain_view(),
    {
        self.grids = grids;
    }
}

/// Cutting a grid into parts and copying the parts back into one grid gives
/// the grid back: the same domain and sweep domain, at every point of the
/// domain the same value, and so the same values in the same order.
pub proof fn lemma_partition_round_trip<T: Default>(
    g: Grid<T>,
    n: nat,
    pg: PartitionedGrid<T>,
    h: Grid<T>,
)
    requires
        g.wf(),
        n >= 1,
        g.domain_view().len() >= 1,
        split_fits(g.domain_view(), n),
        is_partition_of(pg, g, n),
        h.domain_view() == pg.full_domain_view(),
        h.iter_domain_view() == pg.iter_domain_view(),
        h.wf(),
        agrees_with_parts(h, pg.parts(), pg.parts().len() as int),
    ensures
        h.domain_view() == g.domain_view(),
        h.iter_domain_view() == g.iter_domain_view(),
        forall|p: Seq<i64>| #[trigger] contains_point(g.domain_view(), p) ==> h.value_at(p) == g.value_at(p),
        h.cells() == g.cells(),
{
    let dom = g.domain_view();
    assert forall|p: Seq<i64>| #[trigger] contains_point(dom, p) implies h.value_at(p) == g.value_at(p) by {
        let k = lemma_split_covers(dom, n, p);
        lemma_assembled_some(pg.parts(), p, n as int, k);
        let j = choose|j: int| 0 <= j < n && contains_point(pg.parts()[j].domain_view(), p)
            && assembled(pg.parts(), p, n as int) == Some(pg.parts()[j].value_at(p));
        assert(is_subgrid(pg.parts()[j], g, split_part(dom, n, j)));
        lemma_split_part_inside(dom, n, j);
    }
    assert forall|k: int| 0 <= k < g.cells().len() implies #[trigger] h.cells()[k] == g.cells()[k] by {
        lemma_point_at(dom, k);
        assert(contains_point(dom, point_at(dom, k)));
    }
    assert(h.cells() =~= g.cells());
}

/// When some part among the first `m` holds `p`, the assembled value is that
/// of some part among the first `m` that holds `p`.
proof fn lemma_assembled_some<T>(parts: Seq<Grid<T>>, p: Seq<i64>, m: int, k: int)
    requires
        0 <= k < m <= parts.len(),
        contains_point(parts[k].domain_view(), p),
    ensures
        exists|j: int| 0 <= j < m && contains_point(parts[j].domain_view(), p)
            && assembled(parts, p, m) == Some(parts[j].value_at(p)),
    decreases m,
{
    if contains_point(parts[m - 1].domain_view(), p) {
        assert(assembled(parts, p, m) == Some(parts[m - 1].value_at(p)));
    } else {
        lemma_assembled_some(parts, p, m - 1, k);
        let j = choose|j: int| 0 <= j < m - 1 && contains_point(parts[j].domain_view(), p)
            && assembled(parts, p, m - 1) == Some(parts[j].value_at(p));
        assert(0 <= j < m && contains_point(parts[j].domain_view(), p)
            && assembled(parts, p, m) == Some(parts[j].value_at(p)));
    }
}

} // verus!
