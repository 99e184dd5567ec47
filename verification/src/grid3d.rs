//! A cubic grid of values, and the serial seven-point Jacobi sweep over it.

use vstd::prelude::*;
use vstd::arithmetic::mul::*;
use vstd::arithmetic::div_mod::*;
use crate::grid2d::{filled, is_default};

verus! {

/// Position of the point `(x, y, z)` in a cube of edge `n` laid out with `x`
/// varying fastest and `z` slowest.
pub open spec fn index3(n: int, x: int, y: int, z: int) -> int {
    x + n * y + n * n * z
}

/// The point `(x, y, z)` lies in the cube of edge `n`.
pub open spec fn in_cube(n: int, x: int, y: int, z: int) -> bool {
    0 <= x < n && 0 <= y < n && 0 <= z < n
}

/// The points a sweep updates: every coordinate from 1 up to, not including,
/// `n - 2`.
pub open spec fn interior(n: int, x: int, y: int, z: int) -> bool {
    1 <= x < n - 2 && 1 <= y < n - 2 && 1 <= z < n - 2
}

/// Integer division rounded toward zero, as `/` does on Rust's integers.
pub open spec fn div_toward_zero(a: int, d: int) -> int {
    if a >= 0 {
        a / d
    } else {
        -((-a) / d)
    }
}

/// Sum of the value at `(x, y, z)` and those at its six face neighbours.
pub open spec fn neighbour_sum(g: Seq<i32>, n: int, x: int, y: int, z: int) -> int {
    g[index3(n, x, y, z - 1)] + g[index3(n, x, y - 1, z)] + g[index3(n, x - 1, y, z)] + g[index3(n, x, y, z)]
        + g[index3(n, x + 1, y, z)] + g[index3(n, x, y + 1, z)] + g[index3(n, x, y, z + 1)]
}

/// The seven-point average at `(x, y, z)`, rounded toward zero.
pub open spec fn stencil7(g: Seq<i32>, n: int, x: int, y: int, z: int) -> int {
    div_toward_zero(neighbour_sum(g, n, x, y, z), 7)
}

/// What one sweep leaves in the written grid: at each interior point the
/// seven-point average of the read grid, elsewhere the value already there.
pub open spec fn sweep(read: Seq<i32>, write: Seq<i32>, n: int) -> Seq<i32> {
    Seq::new(
        write.len(),
        |i: int|
            {
                let x = i % n;
                let y = (i / n) % n;
                let z = i / (n * n);
                if interior(n, x, y, z) {
                    stencil7(read, n, x, y, z) as i32
                } else {
                    write[i]
                }
            },
    )
}

/// The two grids after the time steps `1..t` of a run: an even step sweeps
/// from the first grid into the second, an odd step from the second into
/// the first.
pub open spec fn sweeps(a: Seq<i32>, b: Seq<i32>, n: int, t: nat) -> (Seq<i32>, Seq<i32>)
    decreases t,
{
    if t <= 1 {
        (a, b)
    } else {
        let (a1, b1) = sweeps(a, b, n, (t - 1) as nat);
        if (t - 1) % 2 == 0 {
            (a1, sweep(a1, b1, n))
        } else {
            (sweep(b1, a1, n), b1)
        }
    }
}

/// A cube of values of edge `size`.
pub struct Grid<T> {
    size: usize,
    grid: Vec<T>,
}

impl<T> Grid<T> {
    /// The edge of the cube.
    pub closed spec fn edge(&self) -> int {
        self.size as int
    }

    /// The values, `x` varying fastest and `z` slowest.
    pub closed spec fn cells(&self) -> Seq<T> {
        self.grid@
    }

    /// A cube with an edge of no negative length, and one value per point.
    pub open spec fn wf(&self) -> bool {
        &&& self.edge() >= 0
        &&& self.cells().len() == self.edge() * self.edge() * self.edge()
    }

    /// The edge of the cube.
    pub fn size(&self) -> (s: usize)
        ensures
            s == self.edge(),
    {
        self.size
    }
}

/// The points of a cube and the positions `0 .. n * n * n` correspond one to
/// one: a point's position is below `n * n * n`, and the coordinates are
/// read back from it by remainder and quotient.
pub proof fn lemma_index3_decode(n: int, x: int, y: int, z: int)
    requires
        in_cube(n, x, y, z),
    ensures
        0 <= index3(n, x, y, z) < n * n * n,
        index3(n, x, y, z) % n == x,
        (index3(n, x, y, z) / n) % n == y,
        index3(n, x, y, z) / (n * n) == z,
{
    let i = index3(n, x, y, z);
    let q = y + n * z;
    lemma_mul_nonnegative(n, y);
    lemma_mul_nonnegative(n, z);
    lemma_mul_nonnegative(n * n, z);
    lemma_mul_is_associative(n, n, z);
    lemma_mul_is_distributive_add(n, y, n * z);
    assert(i == x + n * q);
    lemma_mul_is_commutative(n, q);
    lemma_fundamental_div_mod_converse(i, n, q, x);
    lemma_mul_is_commutative(n, z);
    lemma_fundamental_div_mod_converse(q, n, z, y);
    lemma_div_denominator(i, n, n);
    assert(n * y <= n * n - n) by (nonlinear_arith)
        requires
            0 <= y < n,
    ;
    assert(n * n * z <= n * n * n - n * n) by (nonlinear_arith)
        requires
            0 <= z < n,
    ;
}

/// Every position below `n * n * n` is that of the point whose coordinates
/// are read back from it.
pub proof fn lemma_index3_encode(n: int, i: int)
    requires
        0 <= i < n * n * n,
        n > 0,
    ensures
        in_cube(n, i % n, (i / n) % n, i / (n * n)),
        index3(n, i % n, (i / n) % n, i / (n * n)) == i,
{
    let x = i % n;
    let q = i / n;
    let y = q % n;
    let z = q / n;
    lemma_fundamental_div_mod(i, n);
    lemma_fundamental_div_mod(q, n);
    lemma_div_pos_is_pos(i, n);
    lemma_div_pos_is_pos(q, n);
    lemma_div_denominator(i, n, n);
    lemma_mul_is_distributive_add(n, y, n * z);
    lemma_mul_is_associative(n, n, z);
    if z >= n {
        lemma_mul_inequality(n, z, n);
        lemma_mul_nonnegative(n, y);
        lemma_mul_inequality(n * n, n * z, n);
        lemma_mul_is_commutative(n * z, n);
        lemma_mul_nonnegative(n, q % n);
        lemma_mul_is_commutative(n * n, n);
        assert(false);
    }
}

/// Two points of a cube with the same position are the same point.
pub proof fn lemma_index3_injective(n: int, x: int, y: int, z: int, a: int, b: int, c: int)
    requires
        in_cube(n, x, y, z),
        in_cube(n, a, b, c),
        index3(n, x, y, z) == index3(n, a, b, c),
    ensures
        x == a && y == b && z == c,
{
    lemma_index3_decode(n, x, y, z);
    lemma_index3_decode(n, a, b, c);
}

impl<T: Copy + Default> Grid<T> {
    /// A cube of edge `size`, every value a default one.
    pub fn new(size: usize) -> (g: Grid<T>)
        requires
            size * size * size <= usize::MAX,
        ensures
            g.wf(),
            g.edge() == size,
            forall|i: int| 0 <= i < g.cells().len() ==> is_default(#[trigger] g.cells()[i]),
    {
        proof {
            lemma_mul_nonnegative(size as int, size as int);
            if size > 0 {
                lemma_mul_inequality(1, size as int, (size * size) as int);
                lemma_mul_is_commutative(size as int, (size * size) as int);
            }
        }
        let n3 = size * size * size;
        Grid { size, grid: filled(n3, T::default()) }
    }
}

impl<T: Copy> Grid<T> {
    /// The value at `(x, y, z)`.
    pub fn read(&self, x: usize, y: usize, z: usize) -> (v: &T)
        requires
            self.wf(),
            index3(self.edge(), x as int, y as int, z as int) < self.cells().len(),
        ensures
            *v == self.cells()[index3(self.edge(), x as int, y as int, z as int)],
    {
        let _len = self.grid.len();
        proof {
            lemma_index3_bounds(self.edge(), x as int, y as int, z as int);
        }
        &self.grid[x + self.size * y + self.size * self.size * z]
    }

    /// Stores `value` at `(x, y, z)`.
    pub fn write(&mut self, x: usize, y: usize, z: usize, value: T)
        requires
            old(self).wf(),
            index3(old(self).edge(), x as int, y as int, z as int) < old(self).cells().len(),
        ensures
            final(self).wf(),
            final(self).edge() == old(self).edge(),
            final(self).cells() == old(self).cells().update(
                index3(old(self).edge(), x as int, y as int, z as int),
                value,
            ),
    {
        let _len = self.grid.len();
        proof {
            lemma_index3_bounds(self.edge(), x as int, y as int, z as int);
        }
        let i = x + self.size * y + self.size * self.size * z;
        self.grid.set(i, value);
    }
}

/// Every partial product and sum in the position of a point that lies below
/// `n * n * n` is itself no larger than the position or than `n * n * n`.
proof fn lemma_index3_bounds(n: int, x: int, y: int, z: int)
    requires
        n >= 0,
        x >= 0,
        y >= 0,
        z >= 0,
        index3(n, x, y, z) < n * n * n,
    ensures
        n * y <= index3(n, x, y, z),
        n * n * z <= index3(n, x, y, z),
        n * n <= n * n * n || n * n * n == 0,
        x + n * y <= index3(n, x, y, z),
{
    lemma_mul_nonnegative(n, y);
    lemma_mul_nonnegative(n, n);
    lemma_mul_nonnegative(n * n, z);
    if n > 0 {
        lemma_mul_inequality(1, n, n * n);
        lemma_mul_is_commutative(n, n * n);
    }
}

/// The seven-point average at `(x, y, z)` of the grid `g`, rounded toward
/// zero.
pub fn stencil(g: &Grid<i32>, x: usize, y: usize, z: usize) -> (v: i32)
    requires
        g.wf(),
        1 <= x < g.edge() - 1,
        1 <= y < g.edge() - 1,
        1 <= z < g.edge() - 1,
    ensures
        v == stencil7(g.cells(), g.edge(), x as int, y as int, z as int),
{
    let ghost n = g.edge();
    proof {
        lemma_index3_decode(n, x as int, y as int, (z - 1) as int);
        lemma_index3_decode(n, x as int, (y - 1) as int, z as int);
        lemma_index3_decode(n, (x - 1) as int, y as int, z as int);
        lemma_index3_decode(n, x as int, y as int, z as int);
        lemma_index3_decode(n, (x + 1) as int, y as int, z as int);
        lemma_index3_decode(n, x as int, (y + 1) as int, z as int);
        lemma_index3_decode(n, x as int, y as int, (z + 1) as int);
    }
    let sum: i64 = (*g.read(x, y, z - 1) as i64) + (*g.read(x, y - 1, z) as i64) + (*g.read(x - 1, y, z) as i64)
        + (*g.read(x, y, z) as i64) + (*g.read(x + 1, y, z) as i64) + (*g.read(x, y + 1, z) as i64)
        + (*g.read(x, y, z + 1) as i64);
    let q = sum / 7;
    proof {
        lemma_div_toward_zero_bounds(sum as int);
    }
    q as i32
}

/// The rounded-toward-zero seventh of a sum of seven `i32` values is an
/// `i32`, and it is what `/` computes on `i64`.
proof fn lemma_div_toward_zero_bounds(s: int)
    requires
        7 * i32::MIN <= s <= 7 * i32::MAX,
    ensures
        i32::MIN <= div_toward_zero(s, 7) <= i32::MAX,
{
    if s >= 0 {
        lemma_div_is_ordered(s, 7 * i32::MAX, 7);
        lemma_div_pos_is_pos(s, 7);
    } else {
        lemma_div_is_ordered(-s, -7 * i32::MIN, 7);
        lemma_div_pos_is_pos(-s, 7);
    }
}


/// Every value of `s` lies in `[-m, m]`.
pub open spec fn bounded_by(s: Seq<i32>, m: int) -> bool {
    forall|i: int| 0 <= i < s.len() ==> -m <= #[trigger] s[i] <= m
}

/// Every value of `s` is `c`.
pub open spec fn constant(s: Seq<i32>, c: i32) -> bool {
    forall|i: int| 0 <= i < s.len() ==> #[trigger] s[i] == c
}

/// `s` and `t` agree at every point outside the interior of the cube.
pub open spec fn same_boundary(s: Seq<i32>, t: Seq<i32>, n: int) -> bool {
    &&& s.len() == t.len()
    &&& forall|i: int| 0 <= i < s.len() && !interior(n, i % n, (i / n) % n, i / (n * n)) ==> #[trigger] s[i] == #[trigger] t[i]
}

/// One sweep: every interior point of `write` gets the seven-point average
/// of `read` around it, rounded toward zero; the other points of `write`
/// keep their values. The interior runs from 1 up to, not including,
/// `edge - 2` in each coordinate.
pub fn jacobi_step(read: &Grid<i32>, write: &mut Grid<i32>)
    requires
        read.wf(),
        old(write).wf(),
        read.edge() == old(write).edge(),
        old(write).edge() >= 2,
    ensures
        final(write).wf(),
        final(write).edge() == old(write).edge(),
        final(write).cells() == sweep(read.cells(), old(write).cells(), old(write).edge()),
{
    let ghost orig = write.cells();
    let ghost n = write.edge();
    let size = write.size();
    let top = size - 2;
    let mut x: usize = 1;
    while x < top
        invariant
            n == size,
            top == n - 2,
            n >= 2,
            1 <= x,
            x <= top || top < 1,
            read.wf(),
            read.edge() == n,
            write.wf(),
            write.edge() == n,
            orig.len() == n * n * n,
            forall|a: int, b: int, c: int| #![trigger index3(n, a, b, c)] in_cube(n, a, b, c) ==>
                write.cells()[index3(n, a, b, c)] == if interior(n, a, b, c) && a < x {
                    stencil7(read.cells(), n, a, b, c) as i32
                } else {
                    orig[index3(n, a, b, c)]
                },
        decreases top - x,
    {
        let mut y: usize = 1;
        while y < top
            invariant
                n == size,
                top == n - 2,
                1 <= x < top,
                1 <= y <= top,
                read.wf(),
                read.edge() == n,
                write.wf(),
                write.edge() == n,
                orig.len() == n * n * n,
                forall|a: int, b: int, c: int| #![trigger index3(n, a, b, c)] in_cube(n, a, b, c) ==>
                    write.cells()[index3(n, a, b, c)] == if interior(n, a, b, c) && (a < x || (a == x && b < y)) {
                        stencil7(read.cells(), n, a, b, c) as i32
                    } else {
                        orig[index3(n, a, b, c)]
                    },
            decreases top - y,
        {
            let mut z: usize = 1;
            while z < top
                invariant
                    n == size,
                    top == n - 2,
                    1 <= x < top,
                    1 <= y < top,
                    1 <= z <= top,
                    read.wf(),
                    read.edge() == n,
                    write.wf(),
                    write.edge() == n,
                    orig.len() == n * n * n,
                    forall|a: int, b: int, c: int| #![trigger index3(n, a, b, c)] in_cube(n, a, b, c) ==>
                        write.cells()[index3(n, a, b, c)] == if interior(n, a, b, c) && (a < x || (a == x && (b < y
                            || (b == y && c < z)))) {
                            stencil7(read.cells(), n, a, b, c) as i32
                        } else {
                            orig[index3(n, a, b, c)]
                        },
                decreases top - z,
            {
                let next = stencil(read, x, y, z);
                proof {
                    lemma_index3_decode(n, x as int, y as int, z as int);
                }
                let ghost before = write.cells();
                write.write(x, y, z, next);
                proof {
                    assert forall|a: int, b: int, c: int| #![trigger index3(n, a, b, c)] in_cube(n, a, b, c) implies
                        write.cells()[index3(n, a, b, c)] == if interior(n, a, b, c) && (a < x || (a == x && (b < y
                            || (b == y && c < z + 1)))) {
                            stencil7(read.cells(), n, a, b, c) as i32
                        } else {
                            orig[index3(n, a, b, c)]
                        } by {
                        lemma_index3_decode(n, a, b, c);
                        if a != x || b != y || c != z {
                            if index3(n, a, b, c) == index3(n, x as int, y as int, z as int) {
                                lemma_index3_injective(n, a, b, c, x as int, y as int, z as int);
                            }
                            assert(write.cells()[index3(n, a, b, c)] == before[index3(n, a, b, c)]);
                        }
                    }
                }
                z += 1;
            }
            y += 1;
        }
        x += 1;
    }
    proof {
        assert forall|i: int| 0 <= i < write.cells().len() implies write.cells()[i] == #[trigger] sweep(
            read.cells(),
            orig,
            n,
        )[i] by {
            lemma_index3_encode(n, i);
            let a = i % n;
            let b = (i / n) % n;
            let c = i / (n * n);
            assert(write.cells()[index3(n, a, b, c)] == if interior(n, a, b, c) && a < x {
                stencil7(read.cells(), n, a, b, c) as i32
            } else {
                orig[index3(n, a, b, c)]
            });
        }
        assert(write.cells() =~= sweep(read.cells(), orig, n));
    }
}

/// A run of the serial solver: for each time step `t` in `1..time_steps`,
/// an even step sweeps from `grid_a` into `grid_b` and an odd step from
/// `grid_b` into `grid_a`.
pub fn jacobi_run(grid_a: &mut Grid<i32>, grid_b: &mut Grid<i32>, time_steps: u32)
    requires
        old(grid_a).wf(),
        old(grid_b).wf(),
        old(grid_a).edge() == old(grid_b).edge(),
        time_steps <= 1 || old(grid_b).edge() >= 2,
    ensures
        final(grid_a).wf(),
        final(grid_b).wf(),
        final(grid_a).edge() == old(grid_a).edge(),
        final(grid_b).edge() == old(grid_b).edge(),
        (final(grid_a).cells(), final(grid_b).cells()) == sweeps(
            old(grid_a).cells(),
            old(grid_b).cells(),
            old(grid_b).edge(),
            time_steps as nat,
        ),
{
    let ghost a0 = grid_a.cells();
    let ghost b0 = grid_b.cells();
    let ghost n = grid_b.edge();
    let mut t: u32 = 1;
    while t < time_steps
        invariant
            1 <= t,
            t <= time_steps || t == 1,
            grid_a.wf(),
            grid_b.wf(),
            grid_a.edge() == n,
            grid_b.edge() == n,
            time_steps <= 1 || n >= 2,
            (grid_a.cells(), grid_b.cells()) == sweeps(a0, b0, n, t as nat),
        decreases time_steps - t,
    {
        if t % 2 == 0 {
            jacobi_step(grid_a, grid_b);
        } else {
            jacobi_step(grid_b, grid_a);
        }
        t += 1;
    }
    proof {
        assert(sweeps(a0, b0, n, 0) == (a0, b0));
        assert(sweeps(a0, b0, n, 1) == (a0, b0));
    }
}

/// A sweep keeps every value within `[-m, m]` when both grids start there:
/// a rounded average never leaves the range of the values averaged.
pub proof fn lemma_sweep_bounded(read: Seq<i32>, write: Seq<i32>, n: int, m: int)
    requires
        n >= 2,
        read.len() == n * n * n,
        bounded_by(read, m),
        bounded_by(write, m),
    ensures
        bounded_by(sweep(read, write, n), m),
{
    assert forall|i: int| 0 <= i < write.len() implies -m <= #[trigger] sweep(read, write, n)[i] <= m by {
        let x = i % n;
        let y = (i / n) % n;
        let z = i / (n * n);
        if interior(n, x, y, z) {
            lemma_neighbours_in_cube(n, x, y, z);
            let s = neighbour_sum(read, n, x, y, z);
            assert(-7 * m <= s <= 7 * m);
            lemma_div_toward_zero_range(s, m);
        }
    }
}

/// The seven neighbours of an interior point lie in the cube.
proof fn lemma_neighbours_in_cube(n: int, x: int, y: int, z: int)
    requires
        interior(n, x, y, z),
    ensures
        0 <= index3(n, x, y, z - 1) < n * n * n,
        0 <= index3(n, x, y - 1, z) < n * n * n,
        0 <= index3(n, x - 1, y, z) < n * n * n,
        0 <= index3(n, x, y, z) < n * n * n,
        0 <= index3(n, x + 1, y, z) < n * n * n,
        0 <= index3(n, x, y + 1, z) < n * n * n,
        0 <= index3(n, x, y, z + 1) < n * n * n,
{
    lemma_index3_decode(n, x, y, z - 1);
    lemma_index3_decode(n, x, y - 1, z);
    lemma_index3_decode(n, x - 1, y, z);
    lemma_index3_decode(n, x, y, z);
    lemma_index3_decode(n, x + 1, y, z);
    lemma_index3_decode(n, x, y + 1, z);
    lemma_index3_decode(n, x, y, z + 1);
}

/// Rounding a seventh toward zero keeps a value in `[-7m, 7m]` within
/// `[-m, m]`.
proof fn lemma_div_toward_zero_range(s: int, m: int)
    requires
        -7 * m <= s <= 7 * m,
    ensures
        -m <= div_toward_zero(s, 7) <= m,
{
    if s >= 0 {
        lemma_div_is_ordered(s, 7 * m, 7);
        lemma_div_pos_is_pos(s, 7);
        lemma_div_multiples_vanish(m, 7);
    } else {
        lemma_div_is_ordered(-s, 7 * m, 7);
        lemma_div_pos_is_pos(-s, 7);
        lemma_div_multiples_vanish(m, 7);
    }
}

/// A run keeps every value of both grids within `[-m, m]` when both start
/// there.
pub proof fn lemma_run_bounded(a: Seq<i32>, b: Seq<i32>, n: int, t: nat, m: int)
    requires
        t <= 1 || n >= 2,
        a.len() == n * n * n,
        b.len() == n * n * n,
        bounded_by(a, m),
        bounded_by(b, m),
    ensures
        bounded_by(sweeps(a, b, n, t).0, m),
        bounded_by(sweeps(a, b, n, t).1, m),
        sweeps(a, b, n, t).0.len() == n * n * n,
        sweeps(a, b, n, t).1.len() == n * n * n,
    decreases t,
{
    if t > 1 {
        lemma_run_bounded(a, b, n, (t - 1) as nat, m);
        let (a1, b1) = sweeps(a, b, n, (t - 1) as nat);
        if (t - 1) % 2 == 0 {
            lemma_sweep_bounded(a1, b1, n, m);
        } else {
            lemma_sweep_bounded(b1, a1, n, m);
        }
    }
}

/// A uniform field is left as it is by a sweep: the average of seven equal
/// values is that value.
pub proof fn lemma_sweep_constant(read: Seq<i32>, write: Seq<i32>, n: int, c: i32)
    requires
        n >= 2,
        read.len() == n * n * n,
        constant(read, c),
        constant(write, c),
    ensures
        constant(sweep(read, write, n), c),
{
    assert forall|i: int| 0 <= i < write.len() implies #[trigger] sweep(read, write, n)[i] == c by {
        let x = i % n;
        let y = (i / n) % n;
        let z = i / (n * n);
        if interior(n, x, y, z) {
            lemma_neighbours_in_cube(n, x, y, z);
            assert(neighbour_sum(read, n, x, y, z) == 7 * c);
            if c >= 0 {
                lemma_div_multiples_vanish(c as int, 7);
            } else {
                lemma_div_multiples_vanish(-c, 7);
            }
        }
    }
}

/// A run leaves both grids uniform when both start uniform with the same
/// value.
pub proof fn lemma_run_constant(a: Seq<i32>, b: Seq<i32>, n: int, t: nat, c: i32)
    requires
        t <= 1 || n >= 2,
        a.len() == n * n * n,
        b.len() == n * n * n,
        constant(a, c),
        constant(b, c),
    ensures
        constant(sweeps(a, b, n, t).0, c),
        constant(sweeps(a, b, n, t).1, c),
        sweeps(a, b, n, t).0.len() == n * n * n,
        sweeps(a, b, n, t).1.len() == n * n * n,
    decreases t,
{
    if t > 1 {
        lemma_run_constant(a, b, n, (t - 1) as nat, c);
        let (a1, b1) = sweeps(a, b, n, (t - 1) as nat);
        if (t - 1) % 2 == 0 {
            lemma_sweep_constant(a1, b1, n, c);
        } else {
            lemma_sweep_constant(b1, a1, n, c);
        }
    }
}

/// A run never changes a value outside the interior of the cube.
pub proof fn lemma_run_keeps_boundary(a: Seq<i32>, b: Seq<i32>, n: int, t: nat)
    requires
        a.len() == n * n * n,
        b.len() == n * n * n,
    ensures
        same_boundary(sweeps(a, b, n, t).0, a, n),
        same_boundary(sweeps(a, b, n, t).1, b, n),
    decreases t,
{
    if t > 1 {
        lemma_run_keeps_boundary(a, b, n, (t - 1) as nat);
    }
}


/// `(x, y, z)` is `(a, b, c)` itself or one of its six face neighbours: the
/// two points differ by at most one in exactly one coordinate.
pub open spec fn same_or_face_neighbour(x: int, y: int, z: int, a: int, b: int, c: int) -> bool {
    ||| (x == a && y == b && (z == c || z == c + 1 || z == c - 1))
    ||| (x == a && z == c && (y == b + 1 || y == b - 1))
    ||| (y == b && z == c && (x == a + 1 || x == a - 1))
}

/// A read grid that holds `v` at `(a, b, c)` and zero everywhere else.
pub open spec fn single_spike(read: Seq<i32>, n: int, a: int, b: int, c: int, v: i32) -> bool {
    &&& in_cube(n, a, b, c)
    &&& read[index3(n, a, b, c)] == v
    &&& forall|i: int| 0 <= i < read.len() && i != index3(n, a, b, c) ==> #[trigger] read[i] == 0
}

/// Reading a single-spike grid at a point of the cube gives the spike there
/// and zero elsewhere.
proof fn lemma_read_spike(read: Seq<i32>, n: int, a: int, b: int, c: int, v: i32, x: int, y: int, z: int)
    requires
        read.len() == n * n * n,
        single_spike(read, n, a, b, c, v),
        in_cube(n, x, y, z),
    ensures
        read[index3(n, x, y, z)] == if x == a && y == b && z == c { v } else { 0 },
{
    lemma_index3_decode(n, x, y, z);
    if index3(n, x, y, z) == index3(n, a, b, c) {
        lemma_index3_injective(n, x, y, z, a, b, c);
    }
}

/// A sweep of a grid holding a single spike `v` changes the written grid
/// only at the interior points that are the spike's point or one of its six
/// face neighbours, each to `v / 7` rounded toward zero; every other
/// interior point gets zero, and every point outside the interior keeps the
/// value of the written grid.
pub proof fn lemma_sweep_spike(
    read: Seq<i32>,
    write: Seq<i32>,
    n: int,
    a: int,
    b: int,
    c: int,
    v: i32,
    x: int,
    y: int,
    z: int,
)
    requires
        n >= 2,
        read.len() == n * n * n,
        write.len() == n * n * n,
        single_spike(read, n, a, b, c, v),
        in_cube(n, x, y, z),
    ensures
        sweep(read, write, n)[index3(n, x, y, z)] == if interior(n, x, y, z) {
            if same_or_face_neighbour(x, y, z, a, b, c) {
                div_toward_zero(v as int, 7)
            } else {
                0
            }
        } else {
            write[index3(n, x, y, z) as int] as int
        },
{
    lemma_index3_decode(n, x, y, z);
    let i = index3(n, x, y, z);
    assert(i % n == x && (i / n) % n == y && i / (n * n) == z);
    if interior(n, x, y, z) {
        lemma_read_spike(read, n, a, b, c, v, x, y, z - 1);
        lemma_read_spike(read, n, a, b, c, v, x, y - 1, z);
        lemma_read_spike(read, n, a, b, c, v, x - 1, y, z);
        lemma_read_spike(read, n, a, b, c, v, x, y, z);
        lemma_read_spike(read, n, a, b, c, v, x + 1, y, z);
        lemma_read_spike(read, n, a, b, c, v, x, y + 1, z);
        lemma_read_spike(read, n, a, b, c, v, x, y, z + 1);
        let s = neighbour_sum(read, n, x, y, z);
        if same_or_face_neighbour(x, y, z, a, b, c) {
            assert(s == v);
        } else {
            assert(s == 0);
        }
        lemma_div_toward_zero_bounds(s);
        assert(0int / 7 == 0);
    }
}

/// The value a sweep writes at an interior point depends only on the read
/// grid at that point and its six face neighbours: two read grids that
/// agree there give the same value, whatever the written grids hold.
pub proof fn lemma_sweep_local(
    r1: Seq<i32>,
    r2: Seq<i32>,
    w1: Seq<i32>,
    w2: Seq<i32>,
    n: int,
    x: int,
    y: int,
    z: int,
)
    requires
        n >= 2,
        r1.len() == n * n * n,
        r2.len() == n * n * n,
        w1.len() == n * n * n,
        w2.len() == n * n * n,
        interior(n, x, y, z),
        forall|a: int, b: int, c: int| #![trigger index3(n, a, b, c)] in_cube(n, a, b, c)
            && same_or_face_neighbour(a, b, c, x, y, z) ==> r1[index3(n, a, b, c)] == r2[index3(n, a, b, c)],
    ensures
        sweep(r1, w1, n)[index3(n, x, y, z)] == sweep(r2, w2, n)[index3(n, x, y, z)],
{
    lemma_index3_decode(n, x, y, z);
    lemma_neighbours_in_cube(n, x, y, z);
    assert(in_cube(n, x, y, z - 1) && same_or_face_neighbour(x, y, z - 1, x, y, z));
    assert(r1[index3(n, x, y, z - 1)] == r2[index3(n, x, y, z - 1)]);
    assert(in_cube(n, x, y - 1, z) && same_or_face_neighbour(x, y - 1, z, x, y, z));
    assert(r1[index3(n, x, y - 1, z)] == r2[index3(n, x, y - 1, z)]);
    assert(in_cube(n, x - 1, y, z) && same_or_face_neighbour(x - 1, y, z, x, y, z));
    assert(r1[index3(n, x - 1, y, z)] == r2[index3(n, x - 1, y, z)]);
    assert(in_cube(n, x, y, z) && same_or_face_neighbour(x, y, z, x, y, z));
    assert(r1[index3(n, x, y, z)] == r2[index3(n, x, y, z)]);
    assert(in_cube(n, x + 1, y, z) && same_or_face_neighbour(x + 1, y, z, x, y, z));
    assert(r1[index3(n, x + 1, y, z)] == r2[index3(n, x + 1, y, z)]);
    assert(in_cube(n, x, y + 1, z) && same_or_face_neighbour(x, y + 1, z, x, y, z));
    assert(r1[index3(n, x, y + 1, z)] == r2[index3(n, x, y + 1, z)]);
    assert(in_cube(n, x, y, z + 1) && same_or_face_neighbour(x, y, z + 1, x, y, z));
    assert(r1[index3(n, x, y, z + 1)] == r2[index3(n, x, y, z + 1)]);
}

/// The first step of a run (an odd step) sweeps the second grid into the
/// first and leaves the second as it was.
pub proof fn lemma_run_first_step(a: Seq<i32>, b: Seq<i32>, n: int)
    ensures
        sweeps(a, b, n, 2) == (sweep(b, a, n), b),
{
    assert(sweeps(a, b, n, 1) == (a, b));
}

/// Consecutive steps of a run swap the roles of the grids: the grid one step
/// writes is the grid the next step reads, and the grid one step reads is
/// the grid the next step writes.
pub proof fn lemma_run_steps_alternate(a: Seq<i32>, b: Seq<i32>, n: int, t: nat)
    requires
        t >= 1,
    ensures
        ({
            let (a1, b1) = sweeps(a, b, n, t);
            let (a2, b2) = sweeps(a, b, n, t + 1);
            let (a3, b3) = sweeps(a, b, n, t + 2);
            ||| (a2 == sweep(b1, a1, n) && b2 == b1 && b3 == sweep(a2, b2, n) && a3 == a2)
            ||| (b2 == sweep(a1, b1, n) && a2 == a1 && a3 == sweep(b2, a2, n) && b3 == b2)
        }),
{
    assert(sweeps(a, b, n, t + 1) == {
        let (a1, b1) = sweeps(a, b, n, t);
        if t % 2 == 0 { (a1, sweep(a1, b1, n)) } else { (sweep(b1, a1, n), b1) }
    });
    assert(sweeps(a, b, n, t + 2) == {
        let (a2, b2) = sweeps(a, b, n, t + 1);
        if (t + 1) % 2 == 0 { (a2, sweep(a2, b2, n)) } else { (sweep(b2, a2, n), b2) }
    });
}

/// After three steps of a run the second grid is one sweep of the first
/// grid as it stood after the first step, into the second grid as it began,
/// and the first grid is still what the first step made of it.
pub proof fn lemma_run_three_steps(a: Seq<i32>, b: Seq<i32>, n: int)
    ensures
        sweeps(a, b, n, 3).0 == sweep(b, a, n),
        sweeps(a, b, n, 3).1 == sweep(sweep(b, a, n), b, n),
{
    lemma_run_first_step(a, b, n);
    assert(sweeps(a, b, n, 3) == {
        let (a2, b2) = sweeps(a, b, n, 2);
        (a2, sweep(a2, b2, n))
    });
}


/// Rounding a seventh toward zero: the result has the sign of the value (or
/// is zero), seven times its magnitude does not exceed the value's
/// magnitude, and the value's magnitude falls short of seven times one more
/// than the result's magnitude.
pub proof fn lemma_seventh_toward_zero(s: int)
    ensures
        ({
            let q = div_toward_zero(s, 7);
            &&& s >= 0 ==> 0 <= 7 * q <= s < 7 * q + 7
            &&& s < 0 ==> s - 7 < 7 * q <= 0 && s <= 7 * q
        }),
{
    if s >= 0 {
        lemma_fundamental_div_mod(s, 7);
        lemma_mod_pos_bound(s, 7);
        lemma_div_pos_is_pos(s, 7);
    } else {
        lemma_fundamental_div_mod(-s, 7);
        lemma_mod_pos_bound(-s, 7);
        lemma_div_pos_is_pos(-s, 7);
    }
}

} // verus!
