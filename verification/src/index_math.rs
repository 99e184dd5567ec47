//! The mathematical model of a rectangular index domain: a sequence of
//! half-open `i64` ranges, the points it holds, how many there are, and the
//! row-major numbering of those points (the last dimension varies fastest).

use vstd::prelude::*;
use vstd::arithmetic::mul::*;
use vstd::arithmetic::div_mod::*;
use std::ops::Range;

verus! {

/// Number of values in a half-open range; a range whose end does not exceed
/// its start is empty.
pub open spec fn range_len(r: Range<i64>) -> nat {
    if r.start < r.end { (r.end - r.start) as nat } else { 0nat }
}

/// Number of points in the product of the ranges from dimension `i` on.
pub open spec fn size_from(rs: Seq<Range<i64>>, i: nat) -> nat
    decreases rs.len() - i,
{
    if i >= rs.len() {
        1nat
    } else {
        range_len(rs[i as int]) * size_from(rs, i + 1)
    }
}

/// Number of points in the product of the first `k` ranges.
pub open spec fn size_prefix(rs: Seq<Range<i64>>, k: nat) -> nat
    decreases k,
{
    if k == 0 {
        1nat
    } else {
        size_prefix(rs, (k - 1) as nat) * range_len(rs[k - 1])
    }
}

/// Number of points of the domain.
pub open spec fn domain_size(rs: Seq<Range<i64>>) -> nat {
    size_from(rs, 0)
}

/// Every running product of the range lengths, taken from the first
/// dimension on, and every single length, is at most `bound`.
pub open spec fn products_bounded(rs: Seq<Range<i64>>, bound: int) -> bool {
    &&& forall|k: nat| k <= rs.len() ==> #[trigger] size_prefix(rs, k) <= bound
    &&& forall|i: int| 0 <= i < rs.len() ==> #[trigger] range_len(rs[i]) <= bound
}

/// No range of the domain is empty.
pub open spec fn all_nonempty(rs: Seq<Range<i64>>) -> bool {
    forall|i: int| 0 <= i < rs.len() ==> #[trigger] rs[i].start < rs[i].end
}

/// `p` is a point of the domain: one coordinate per dimension, each inside
/// its range.
pub open spec fn contains_point(rs: Seq<Range<i64>>, p: Seq<i64>) -> bool {
    &&& p.len() == rs.len()
    &&& forall|i: int| #![trigger p[i]] 0 <= i < rs.len() ==> rs[i].start <= p[i] < rs[i].end
}

/// `a` lies inside `b`: same dimension, and in each dimension the range of
/// `a` starts no earlier and ends no later than that of `b`.
pub open spec fn subdomain_of(a: Seq<Range<i64>>, b: Seq<Range<i64>>) -> bool {
    &&& a.len() == b.len()
    &&& forall|i: int| #![trigger a[i]] 0 <= i < a.len() ==> b[i].start <= a[i].start && a[i].end <= b[i].end
}

/// Row-major position of `p` counted over the dimensions from `i` on.
pub open spec fn flat_from(rs: Seq<Range<i64>>, p: Seq<i64>, i: nat) -> int
    decreases rs.len() - i,
{
    if i >= rs.len() {
        0
    } else {
        (p[i as int] - rs[i as int].start) * size_from(rs, i + 1) + flat_from(rs, p, i + 1)
    }
}

/// Row-major position of `p` in the domain: the offset of the last
/// coordinate, plus the offset of the one before times the length of the
/// last range, and so on.
pub open spec fn flat_index(rs: Seq<Range<i64>>, p: Seq<i64>) -> int {
    flat_from(rs, p, 0)
}

/// The first point of the domain: every coordinate at the start of its range.
pub open spec fn start_point(rs: Seq<Range<i64>>) -> Seq<i64> {
    Seq::new(rs.len(), |i: int| rs[i].start)
}

/// One step of the odometer over dimensions `pos` down to 0: the coordinate
/// at `pos` goes up by one; where it reaches the end of its range it goes
/// back to the start and the step carries into the dimension before. The
/// flag is set when the carry runs out of dimensions.
pub open spec fn odometer(rs: Seq<Range<i64>>, cur: Seq<i64>, pos: int) -> (Seq<i64>, bool)
    decreases pos + 1,
{
    if pos < 0 {
        (cur, true)
    } else if cur[pos] + 1 >= rs[pos].end {
        odometer(rs, cur.update(pos, rs[pos].start), pos - 1)
    } else {
        (cur.update(pos, (cur[pos] + 1) as i64), false)
    }
}


/// The range of values that lie in both `a` and `b`: it starts at the later
/// start and ends at the earlier end.
pub open spec fn intersect_range(a: Range<i64>, b: Range<i64>) -> Range<i64> {
    Range {
        start: if a.start >= b.start { a.start } else { b.start },
        end: if a.end <= b.end { a.end } else { b.end },
    }
}

/// Dimension by dimension intersection of two domains of equal dimension.
pub open spec fn intersect_domains(a: Seq<Range<i64>>, b: Seq<Range<i64>>) -> Seq<Range<i64>> {
    Seq::new(a.len(), |i: int| intersect_range(a[i], b[i]))
}

/// `a` lies strictly inside `b`: same dimension, and in each dimension the
/// range of `a` starts later and ends earlier than that of `b`.
pub open spec fn strict_subdomain_of(a: Seq<Range<i64>>, b: Seq<Range<i64>>) -> bool {
    &&& a.len() == b.len()
    &&& forall|i: int| #![trigger a[i]] 0 <= i < a.len() ==> b[i].start < a[i].start && a[i].end < b[i].end
}

/// Width of each slab when the first dimension is cut into `n` slabs: the
/// length of the first range divided by `n`, rounded up.
pub open spec fn split_extent(rs: Seq<Range<i64>>, n: nat) -> int {
    let len = range_len(rs[0]) as int;
    if n == 0 { 0 } else { (len + n - 1) / (n as int) }
}

/// The `k`-th slab of the first dimension: from `start + k * extent` up to
/// `start + (k + 1) * extent`, cut off at the end of the range.
pub open spec fn split_range(rs: Seq<Range<i64>>, n: nat, k: int) -> Range<i64> {
    let e = split_extent(rs, n);
    let lo = rs[0].start + k * e;
    let hi = rs[0].start + (k + 1) * e;
    Range { start: lo as i64, end: (if hi <= rs[0].end { hi } else { rs[0].end as int }) as i64 }
}

/// The `k`-th of `n` parts of a domain: its first range is the `k`-th slab,
/// the other ranges are those of the domain.
pub open spec fn split_part(rs: Seq<Range<i64>>, n: nat, k: int) -> Seq<Range<i64>> {
    seq![split_range(rs, n, k)] + rs.subrange(1, rs.len() as int)
}

/// The slab arithmetic of a split stays within `i64`.
pub open spec fn split_fits(rs: Seq<Range<i64>>, n: nat) -> bool {
    &&& range_len(rs[0]) <= usize::MAX
    &&& split_extent(rs, n) <= i64::MAX
    &&& rs[0].start + n * split_extent(rs, n) <= i64::MAX
}

/// A domain that holds a point has no empty range.
pub proof fn lemma_point_nonempty(rs: Seq<Range<i64>>, p: Seq<i64>)
    requires
        contains_point(rs, p),
    ensures
        all_nonempty(rs),
{
    assert forall|i: int| 0 <= i < rs.len() implies #[trigger] rs[i].start < rs[i].end by {
        assert(rs[i].start <= p[i] < rs[i].end);
    }
}


/// The state in which a traversal starts: every coordinate at the start of
/// its range, except the last, which stands one before it.
pub open spec fn fresh_point(rs: Seq<Range<i64>>) -> Seq<i64> {
    start_point(rs).update(rs.len() - 1, (rs[rs.len() - 1].start - 1) as i64)
}

/// What successive odometer steps from `cur` hand out, `m` of them: the new
/// coordinates after each step, or `None` for a step that ran past the
/// first dimension.
pub open spec fn traversal(rs: Seq<Range<i64>>, cur: Seq<i64>, m: nat) -> Seq<Option<Seq<i64>>>
    decreases m,
{
    if m == 0 {
        Seq::empty()
    } else {
        let (nc, done) = odometer(rs, cur, rs.len() - 1);
        seq![if done { None } else { Some(nc) }] + traversal(rs, nc, (m - 1) as nat)
    }
}

/// The point whose row-major position is `k`: in each dimension, the start
/// of the range plus the matching digit of `k` written in the mixed radix of
/// the range lengths.
pub open spec fn point_at(rs: Seq<Range<i64>>, k: int) -> Seq<i64> {
    Seq::new(
        rs.len(),
        |i: int| (rs[i].start + (k / size_from(rs, (i + 1) as nat) as int) % (range_len(rs[i]) as int)) as i64,
    )
}

/// `p` comes before `q` in lexicographic order, comparing from dimension
/// `i` on.
pub open spec fn lex_less_from(p: Seq<i64>, q: Seq<i64>, i: nat) -> bool
    decreases p.len() - i,
{
    if i >= p.len() {
        false
    } else {
        p[i as int] < q[i as int] || (p[i as int] == q[i as int] && lex_less_from(p, q, i + 1))
    }
}

/// `p` comes before `q` in lexicographic order.
pub open spec fn lex_less(p: Seq<i64>, q: Seq<i64>) -> bool {
    lex_less_from(p, q, 0)
}

/// The arithmetic of computing the row-major position of `p` from the last
/// dimension down to dimension `j` stays within `i64`: the offset, its
/// product with the suffix size, the running position, the length of the
/// range, and the suffix size.
pub open spec fn flat_step_fits(rs: Seq<Range<i64>>, p: Seq<i64>, j: nat) -> bool {
    &&& i64::MIN <= p[j as int] - rs[j as int].start <= i64::MAX
    &&& i64::MIN <= (p[j as int] - rs[j as int].start) * size_from(rs, j + 1) <= i64::MAX
    &&& i64::MIN <= flat_from(rs, p, j) <= i64::MAX
    &&& range_len(rs[j as int]) <= i64::MAX
    &&& range_len(rs[j as int]) <= usize::MAX
    &&& size_from(rs, j) <= i64::MAX
}

/// Every step of computing the row-major position of `p` stays within
/// `i64`.
pub open spec fn flat_fits(rs: Seq<Range<i64>>, p: Seq<i64>) -> bool {
    &&& p.len() == rs.len()
    &&& forall|j: nat| j < rs.len() ==> #[trigger] flat_step_fits(rs, p, j)
}

pub proof fn lemma_size_from_unfold(rs: Seq<Range<i64>>, i: nat)
    requires
        i < rs.len(),
    ensures
        size_from(rs, i) == range_len(rs[i as int]) * size_from(rs, i + 1),
{
}

/// With no empty range, every suffix product is positive and no larger than
/// the products of longer suffixes.
pub proof fn lemma_size_from_mono(rs: Seq<Range<i64>>, i: nat, j: nat)
    requires
        all_nonempty(rs),
        i <= j,
    ensures
        1 <= size_from(rs, j) <= size_from(rs, i),
    decreases j - i,
{
    if j >= rs.len() {
        if i < j {
            lemma_size_from_mono(rs, i, (j - 1) as nat);
            if j - 1 < rs.len() {
                lemma_size_from_unfold(rs, (j - 1) as nat);
                lemma_mul_inequality(1, range_len(rs[j - 1]) as int, size_from(rs, j) as int);
            }
        }
    } else if i == j {
        lemma_size_from_mono_base(rs, j);
    } else {
        lemma_size_from_mono(rs, i + 1, j);
        lemma_size_from_unfold(rs, i);
        assert(range_len(rs[i as int]) >= 1);
        lemma_mul_inequality(1, range_len(rs[i as int]) as int, size_from(rs, i + 1) as int);
    }
}

proof fn lemma_size_from_mono_base(rs: Seq<Range<i64>>, j: nat)
    requires
        all_nonempty(rs),
    ensures
        1 <= size_from(rs, j),
    decreases rs.len() - j,
{
    if j < rs.len() {
        lemma_size_from_mono_base(rs, j + 1);
        assert(range_len(rs[j as int]) >= 1);
        lemma_mul_inequality(1, range_len(rs[j as int]) as int, size_from(rs, j + 1) as int);
    }
}

/// The prefix and suffix products meet: the product of the first `k`
/// lengths times the product of the rest is the size of the domain.
pub proof fn lemma_prefix_times_suffix(rs: Seq<Range<i64>>, k: nat)
    requires
        k <= rs.len(),
    ensures
        size_prefix(rs, k) * size_from(rs, k) == domain_size(rs),
    decreases k,
{
    if k > 0 {
        let a = size_prefix(rs, (k - 1) as nat) as int;
        let l = range_len(rs[k - 1]) as int;
        let s = size_from(rs, k) as int;
        lemma_prefix_times_suffix(rs, (k - 1) as nat);
        lemma_size_from_unfold(rs, (k - 1) as nat);
        assert(size_prefix(rs, k) == a * l);
        assert(size_from(rs, (k - 1) as nat) == l * s);
        lemma_mul_is_associative(a, l, s);
    } else {
        assert(size_prefix(rs, 0) == 1);
        lemma_mul_basics(size_from(rs, 0) as int);
    }
}

/// The position of a point counted from dimension `i` lies in
/// `[0, size_from(rs, i))`.
pub proof fn lemma_flat_bounds(rs: Seq<Range<i64>>, p: Seq<i64>, i: nat)
    requires
        contains_point(rs, p),
    ensures
        0 <= flat_from(rs, p, i) < size_from(rs, i),
    decreases rs.len() - i,
{
    if i < rs.len() {
        lemma_flat_bounds(rs, p, i + 1);
        let off = p[i as int] - rs[i as int].start;
        let s = size_from(rs, i + 1) as int;
        let l = range_len(rs[i as int]) as int;
        assert(0 <= off < l);
        lemma_mul_nonnegative(off, s);
        lemma_mul_inequality(off + 1, l, s);
        lemma_mul_is_distributive_add_other_way(s, off, 1);
    }
}

/// Two points with the same position counted from dimension `i` agree on
/// every coordinate from `i` on.
pub proof fn lemma_flat_injective(rs: Seq<Range<i64>>, p: Seq<i64>, q: Seq<i64>, i: nat)
    requires
        contains_point(rs, p),
        contains_point(rs, q),
        flat_from(rs, p, i) == flat_from(rs, q, i),
    ensures
        forall|j: int| i <= j < rs.len() ==> p[j] == q[j],
    decreases rs.len() - i,
{
    if i < rs.len() {
        let a = p[i as int] - rs[i as int].start;
        let b = q[i as int] - rs[i as int].start;
        let s = size_from(rs, i + 1) as int;
        let f = flat_from(rs, p, i + 1);
        let g = flat_from(rs, q, i + 1);
        lemma_flat_bounds(rs, p, i + 1);
        lemma_flat_bounds(rs, q, i + 1);
        if a < b {
            lemma_mul_inequality(a + 1, b, s);
            lemma_mul_is_distributive_add_other_way(s, a, 1);
            assert(false);
        } else if b < a {
            lemma_mul_inequality(b + 1, a, s);
            lemma_mul_is_distributive_add_other_way(s, b, 1);
            assert(false);
        }
        assert(f == g);
        lemma_flat_injective(rs, p, q, i + 1);
    }
}

/// Distinct points of a domain have distinct positions.
pub proof fn lemma_flat_index_injective(rs: Seq<Range<i64>>, p: Seq<i64>, q: Seq<i64>)
    requires
        contains_point(rs, p),
        contains_point(rs, q),
        p != q,
    ensures
        flat_index(rs, p) != flat_index(rs, q),
{
    if flat_index(rs, p) == flat_index(rs, q) {
        lemma_flat_injective(rs, p, q, 0);
        assert(p =~= q);
    }
}

/// Coordinates all at the start of their ranges from dimension `i` on count
/// zero from there.
pub proof fn lemma_flat_at_starts(rs: Seq<Range<i64>>, x: Seq<i64>, i: nat)
    requires
        x.len() == rs.len(),
        forall|k: int| i <= k < rs.len() ==> x[k] == rs[k].start,
    ensures
        flat_from(rs, x, i) == 0,
    decreases rs.len() - i,
{
    if i < rs.len() {
        lemma_flat_at_starts(rs, x, i + 1);
        lemma_mul_basics(size_from(rs, i + 1) as int);
    }
}

/// Coordinates all at the last value of their ranges from dimension `i` on
/// count one less than the suffix size.
pub proof fn lemma_flat_at_ends(rs: Seq<Range<i64>>, x: Seq<i64>, i: nat)
    requires
        x.len() == rs.len(),
        all_nonempty(rs),
        forall|k: int| i <= k < rs.len() ==> x[k] == rs[k].end - 1,
    ensures
        flat_from(rs, x, i) == size_from(rs, i) - 1,
    decreases rs.len() - i,
{
    if i < rs.len() {
        lemma_flat_at_ends(rs, x, i + 1);
        let l = range_len(rs[i as int]) as int;
        let s = size_from(rs, i + 1) as int;
        assert(x[i as int] - rs[i as int].start == l - 1);
        lemma_mul_is_distributive_sub_other_way(s, l, 1);
    }
}

/// If `x` and `y` agree on dimensions `[i, j)` and `y` counts one more than
/// `x` from `j` on, then `y` counts one more than `x` from `i` on.
pub proof fn lemma_flat_carry(rs: Seq<Range<i64>>, x: Seq<i64>, y: Seq<i64>, i: nat, j: nat)
    requires
        i <= j <= rs.len(),
        x.len() == rs.len(),
        y.len() == rs.len(),
        forall|k: int| i <= k < j ==> x[k] == y[k],
        flat_from(rs, y, j) == flat_from(rs, x, j) + 1,
    ensures
        flat_from(rs, y, i) == flat_from(rs, x, i) + 1,
    decreases j - i,
{
    if i < j {
        lemma_flat_carry(rs, x, y, i + 1, j);
    }
}

/// The start point is a point of a domain with no empty range, and the
/// first in row-major order.
pub proof fn lemma_start_point(rs: Seq<Range<i64>>)
    requires
        all_nonempty(rs),
    ensures
        contains_point(rs, start_point(rs)),
        flat_index(rs, start_point(rs)) == 0,
{
    lemma_flat_at_starts(rs, start_point(rs), 0);
}

/// Shape of one odometer step taken from a point `cur`, once the
/// dimensions after `pos` have all wrapped: it either raises the last
/// dimension `j <= pos` that is not yet at the end of its range and resets
/// every later one, or, when there is no such dimension, it wraps all the way
/// round to the start point.
proof fn lemma_odometer_shape(rs: Seq<Range<i64>>, cur: Seq<i64>, c: Seq<i64>, pos: int)
    requires
        contains_point(rs, cur),
        -1 <= pos < rs.len(),
        c.len() == rs.len(),
        forall|k: int| 0 <= k <= pos ==> c[k] == cur[k],
        forall|k: int| pos < k < rs.len() ==> c[k] == rs[k].start,
        forall|k: int| pos < k < rs.len() ==> cur[k] == rs[k].end - 1,
    ensures
        ({
            let (nc, done) = odometer(rs, c, pos);
            &&& nc.len() == rs.len()
            &&& (forall|k: int| 0 <= k <= pos ==> cur[k] == rs[k].end - 1) ==> done && nc == start_point(rs)
            &&& !(forall|k: int| 0 <= k <= pos ==> cur[k] == rs[k].end - 1) ==> !done && exists|j: int|
                0 <= j <= pos && cur[j] < rs[j].end - 1 && (forall|k: int| j < k < rs.len() ==> cur[k] == rs[k].end - 1)
                    && (forall|k: int| 0 <= k < j ==> nc[k] == cur[k]) && nc[j] == cur[j] + 1
                    && (forall|k: int| j < k < rs.len() ==> nc[k] == rs[k].start)
        }),
    decreases pos + 1,
{
    if pos < 0 {
        assert(c =~= start_point(rs));
    } else if c[pos] + 1 >= rs[pos].end {
        let c2 = c.update(pos, rs[pos].start);
        lemma_odometer_shape(rs, cur, c2, pos - 1);
        let (nc, done) = odometer(rs, c2, pos - 1);
        assert(odometer(rs, c, pos) == odometer(rs, c2, pos - 1));
        assert(cur[pos] == rs[pos].end - 1);
        if !(forall|k: int| 0 <= k <= pos ==> cur[k] == rs[k].end - 1) {
            assert(!(forall|k: int| 0 <= k <= pos - 1 ==> cur[k] == rs[k].end - 1));
            let j = choose|j: int|
                0 <= j <= pos - 1 && cur[j] < rs[j].end - 1 && (forall|k: int| j < k < rs.len() ==> cur[k] == rs[k].end - 1)
                    && (forall|k: int| 0 <= k < j ==> nc[k] == cur[k]) && nc[j] == cur[j] + 1
                    && (forall|k: int| j < k < rs.len() ==> nc[k] == rs[k].start);
            assert(0 <= j <= pos);
        } else {
            assert(forall|k: int| 0 <= k <= pos - 1 ==> cur[k] == rs[k].end - 1);
        }
    } else {
        let nc = c.update(pos, (c[pos] + 1) as i64);
        assert(cur[pos] < rs[pos].end - 1);
        assert(0 <= pos <= pos && cur[pos] < rs[pos].end - 1 && (forall|k: int| pos < k < rs.len() ==> cur[k] == rs[k].end - 1)
            && (forall|k: int| 0 <= k < pos ==> nc[k] == cur[k]) && nc[pos] == cur[pos] + 1
            && (forall|k: int| pos < k < rs.len() ==> nc[k] == rs[k].start));
    }
}

/// One odometer step from a point of a domain with no empty range moves to
/// the next point in row-major order, or, from the last point, wraps round
/// to the start point and reports that the end was passed.
pub proof fn lemma_odometer_successor(rs: Seq<Range<i64>>, cur: Seq<i64>)
    requires
        all_nonempty(rs),
        contains_point(rs, cur),
        rs.len() >= 1,
    ensures
        ({
            let (nc, done) = odometer(rs, cur, rs.len() - 1);
            &&& flat_index(rs, cur) + 1 < domain_size(rs) ==> !done && contains_point(rs, nc)
                && flat_index(rs, nc) == flat_index(rs, cur) + 1
            &&& flat_index(rs, cur) + 1 >= domain_size(rs) ==> done && nc == start_point(rs)
        }),
{
    let last = rs.len() - 1;
    lemma_odometer_shape(rs, cur, cur, last);
    let (nc, done) = odometer(rs, cur, last);
    lemma_flat_bounds(rs, cur, 0);
    if forall|k: int| 0 <= k <= last ==> cur[k] == rs[k].end - 1 {
        lemma_flat_at_ends(rs, cur, 0);
    } else {
        let j = choose|j: int|
            0 <= j <= last && cur[j] < rs[j].end - 1 && (forall|k: int| j < k < rs.len() ==> cur[k] == rs[k].end - 1)
                && (forall|k: int| 0 <= k < j ==> nc[k] == cur[k]) && nc[j] == cur[j] + 1
                && (forall|k: int| j < k < rs.len() ==> nc[k] == rs[k].start);
        assert(contains_point(rs, nc));
        lemma_flat_at_ends(rs, cur, (j + 1) as nat);
        lemma_flat_at_starts(rs, nc, (j + 1) as nat);
        let s = size_from(rs, (j + 1) as nat) as int;
        let off = cur[j] - rs[j].start;
        lemma_mul_is_distributive_add_other_way(s, off, 1);
        assert(flat_from(rs, nc, j as nat) == flat_from(rs, cur, j as nat) + 1);
        lemma_flat_carry(rs, cur, nc, 0, j as nat);
        lemma_flat_bounds(rs, nc, 0);
    }
}


/// Each part of a split lies inside the domain that was split.
pub proof fn lemma_split_part_inside(rs: Seq<Range<i64>>, n: nat, k: int)
    requires
        rs.len() >= 1,
        n >= 1,
        0 <= k < n,
        split_fits(rs, n),
    ensures
        subdomain_of(split_part(rs, n, k), rs),
        split_part(rs, n, k).len() == rs.len(),
{
    let e = split_extent(rs, n);
    lemma_split_extent_bounds(rs, n);
    lemma_mul_nonnegative(k, e);
    lemma_mul_inequality(k, n as int, e);
    let part = split_part(rs, n, k);
    assert forall|i: int| #![trigger part[i]] 0 <= i < part.len() implies rs[i].start <= part[i].start && part[i].end <= rs[i].end by {
        if i > 0 {
            assert(part[i] == rs[i]);
        }
    }
}

/// The slab width is at least one when the first range is not empty, the
/// `n` slabs together reach the end of the first range, and the width is
/// never negative.
pub proof fn lemma_split_extent_bounds(rs: Seq<Range<i64>>, n: nat)
    requires
        rs.len() >= 1,
        n >= 1,
    ensures
        split_extent(rs, n) >= 0,
        range_len(rs[0]) >= 1 ==> split_extent(rs, n) >= 1,
        n * split_extent(rs, n) >= range_len(rs[0]),
{
    let len = range_len(rs[0]) as int;
    let m = n as int;
    let e = split_extent(rs, n);
    lemma_fundamental_div_mod(len + m - 1, m);
    lemma_mul_is_commutative(m, e);
    if len >= 1 {
        lemma_div_is_ordered(m, len + m - 1, m);
        lemma_div_by_self(m);
    }
    if e < 0 {
        lemma_div_pos_is_pos(len + m - 1, m);
    }
}

/// Every point of the domain lies in some part of a split into at least one
/// part.
pub proof fn lemma_split_covers(rs: Seq<Range<i64>>, n: nat, p: Seq<i64>) -> (k: int)
    requires
        rs.len() >= 1,
        n >= 1,
        split_fits(rs, n),
        contains_point(rs, p),
    ensures
        0 <= k < n,
        contains_point(split_part(rs, n, k), p),
{
    let e = split_extent(rs, n);
    let s = rs[0].start as int;
    let off = p[0] - s;
    lemma_split_extent_bounds(rs, n);
    assert(range_len(rs[0]) >= 1);
    let k = off / e;
    lemma_fundamental_div_mod(off, e);
    lemma_div_pos_is_pos(off, e);
    lemma_mul_is_commutative(e, k);
    if k >= n {
        lemma_mul_inequality(n as int, k, e);
        lemma_mul_is_commutative(n as int, e);
        assert(false);
    }
    lemma_mul_is_distributive_add_other_way(e, k, 1);
    lemma_mul_inequality(k + 1, n as int, e);
    lemma_mul_is_commutative(n as int, e);
    lemma_mul_nonnegative(k, e);
    let part = split_part(rs, n, k);
    assert(part[0] == split_range(rs, n, k));
    assert forall|i: int| #![trigger p[i]] 0 <= i < part.len() implies part[i].start <= p[i] < part[i].end by {
        if i > 0 {
            assert(part[i] == rs[i]);
        }
    }
    k
}

/// Two different parts of a split share no point.
pub proof fn lemma_split_disjoint(rs: Seq<Range<i64>>, n: nat, k: int, l: int, p: Seq<i64>)
    requires
        rs.len() >= 1,
        n >= 1,
        split_fits(rs, n),
        0 <= k < l < n,
    ensures
        !(contains_point(split_part(rs, n, k), p) && contains_point(split_part(rs, n, l), p)),
{
    let e = split_extent(rs, n);
    lemma_split_extent_bounds(rs, n);
    lemma_mul_inequality(k + 1, l, e);
    lemma_mul_inequality(l, n as int, e);
    lemma_mul_is_commutative(n as int, e);
    lemma_mul_nonnegative(k + 1, e);
    if contains_point(split_part(rs, n, k), p) && contains_point(split_part(rs, n, l), p) {
        assert(split_part(rs, n, k)[0] == split_range(rs, n, k));
        assert(split_part(rs, n, l)[0] == split_range(rs, n, l));
        assert(p[0] < split_range(rs, n, k).end);
        assert(p[0] >= split_range(rs, n, l).start);
    }
}

/// A domain inside another has running products and range lengths no
/// larger than those of the other, and no more points.
pub proof fn lemma_subdomain_products(a: Seq<Range<i64>>, b: Seq<Range<i64>>)
    requires
        subdomain_of(a, b),
    ensures
        forall|k: nat| k <= a.len() ==> #[trigger] size_prefix(a, k) <= size_prefix(b, k),
        forall|i: int| 0 <= i < a.len() ==> #[trigger] range_len(a[i]) <= range_len(b[i]),
        domain_size(a) <= domain_size(b),
{
    assert forall|i: int| 0 <= i < a.len() implies #[trigger] range_len(a[i]) <= range_len(b[i]) by {
        assert(b[i].start <= a[i].start && a[i].end <= b[i].end);
    }
    assert forall|k: nat| k <= a.len() implies #[trigger] size_prefix(a, k) <= size_prefix(b, k) by {
        lemma_subdomain_prefix(a, b, k);
    }
    lemma_subdomain_prefix(a, b, a.len());
    lemma_prefix_times_suffix(a, a.len());
    lemma_prefix_times_suffix(b, b.len());
    lemma_mul_basics(size_prefix(a, a.len()) as int);
    lemma_mul_basics(size_prefix(b, b.len()) as int);
}

proof fn lemma_subdomain_prefix(a: Seq<Range<i64>>, b: Seq<Range<i64>>, k: nat)
    requires
        subdomain_of(a, b),
        k <= a.len(),
    ensures
        size_prefix(a, k) <= size_prefix(b, k),
    decreases k,
{
    if k > 0 {
        lemma_subdomain_prefix(a, b, (k - 1) as nat);
        let i = k - 1;
        assert(b[i].start <= a[i].start && a[i].end <= b[i].end);
        let pa = size_prefix(a, (k - 1) as nat) as int;
        let pb = size_prefix(b, (k - 1) as nat) as int;
        let la = range_len(a[i]) as int;
        let lb = range_len(b[i]) as int;
        lemma_mul_inequality(pa, pb, la);
        lemma_mul_is_commutative(pb, la);
        lemma_mul_is_commutative(pb, lb);
        lemma_mul_inequality(la, lb, pb);
    }
}


/// The intersection of two domains of equal dimension lies inside each of
/// them.
pub proof fn lemma_intersect_inside(a: Seq<Range<i64>>, b: Seq<Range<i64>>)
    requires
        a.len() == b.len(),
    ensures
        subdomain_of(intersect_domains(a, b), a),
        subdomain_of(intersect_domains(a, b), b),
{
    let c = intersect_domains(a, b);
    assert forall|i: int| #![trigger c[i]] 0 <= i < c.len() implies a[i].start <= c[i].start && c[i].end <= a[i].end
        && b[i].start <= c[i].start && c[i].end <= b[i].end by {
        assert(c[i] == intersect_range(a[i], b[i]));
    }
}


/// A domain with at least one point has no empty range.
pub proof fn lemma_size_positive_nonempty(rs: Seq<Range<i64>>, i: nat)
    requires
        size_from(rs, i) > 0,
    ensures
        forall|k: int| i <= k < rs.len() ==> #[trigger] rs[k].start < rs[k].end,
    decreases rs.len() - i,
{
    if i < rs.len() {
        lemma_size_from_unfold(rs, i);
        let l = range_len(rs[i as int]) as int;
        let s = size_from(rs, i + 1) as int;
        if l == 0 {
            lemma_mul_basics(s);
        }
        if s == 0 {
            lemma_mul_basics(l);
        }
        lemma_mul_nonnegative(l, s);
        lemma_size_positive_nonempty(rs, i + 1);
    }
}

/// The position of `point_at(rs, k)` counted from dimension `i` on is the
/// remainder of `k` by the suffix size.
proof fn lemma_point_at_from(rs: Seq<Range<i64>>, k: int, i: nat)
    requires
        all_nonempty(rs),
        k >= 0,
        i <= rs.len(),
    ensures
        flat_from(rs, point_at(rs, k), i) == k % (size_from(rs, i) as int),
    decreases rs.len() - i,
{
    let p = point_at(rs, k);
    if i == rs.len() {
        lemma_mod_pos_bound(k, 1);
    } else {
        lemma_point_at_from(rs, k, i + 1);
        let s = size_from(rs, i + 1) as int;
        let l = range_len(rs[i as int]) as int;
        lemma_size_from_mono(rs, 0, i + 1);
        assert(l >= 1);
        lemma_div_pos_is_pos(k, s);
        lemma_mod_pos_bound(k / s, l);
        assert(p[i as int] - rs[i as int].start == (k / s) % l);
        lemma_breakdown(k, s, l);
        lemma_mul_is_commutative(s, (k / s) % l);
        lemma_mul_is_commutative(s, l);
        lemma_size_from_unfold(rs, i);
    }
}

/// Every number below the size of a domain is the row-major position of a
/// point: the row-major numbering maps the points onto `0 .. size`.
pub proof fn lemma_point_at(rs: Seq<Range<i64>>, k: int)
    requires
        0 <= k < domain_size(rs),
    ensures
        contains_point(rs, point_at(rs, k)),
        flat_index(rs, point_at(rs, k)) == k,
{
    lemma_size_positive_nonempty(rs, 0);
    let p = point_at(rs, k);
    assert forall|i: int| #![trigger p[i]] 0 <= i < rs.len() implies rs[i].start <= p[i] < rs[i].end by {
        let s = size_from(rs, (i + 1) as nat) as int;
        let l = range_len(rs[i]) as int;
        lemma_size_from_mono(rs, 0, (i + 1) as nat);
        lemma_div_pos_is_pos(k, s);
        lemma_mod_pos_bound(k / s, l);
    }
    lemma_point_at_from(rs, k, 0);
    lemma_small_mod(k as nat, domain_size(rs));
}

/// Every point is the point at its own row-major position.
pub proof fn lemma_point_at_flat(rs: Seq<Range<i64>>, p: Seq<i64>)
    requires
        contains_point(rs, p),
    ensures
        point_at(rs, flat_index(rs, p)) == p,
{
    lemma_flat_bounds(rs, p, 0);
    lemma_point_at(rs, flat_index(rs, p));
    if point_at(rs, flat_index(rs, p)) != p {
        lemma_flat_index_injective(rs, point_at(rs, flat_index(rs, p)), p);
    }
}

/// A smaller position counted from dimension `i` means an earlier point in
/// lexicographic order from dimension `i` on.
proof fn lemma_flat_lt_lex(rs: Seq<Range<i64>>, p: Seq<i64>, q: Seq<i64>, i: nat)
    requires
        contains_point(rs, p),
        contains_point(rs, q),
        flat_from(rs, p, i) < flat_from(rs, q, i),
    ensures
        lex_less_from(p, q, i),
    decreases rs.len() - i,
{
    if i < rs.len() {
        let a = p[i as int] - rs[i as int].start;
        let b = q[i as int] - rs[i as int].start;
        let s = size_from(rs, i + 1) as int;
        lemma_flat_bounds(rs, p, i + 1);
        lemma_flat_bounds(rs, q, i + 1);
        if a > b {
            lemma_mul_inequality(b + 1, a, s);
            lemma_mul_is_distributive_add_other_way(s, b, 1);
            assert(false);
        } else if a == b {
            lemma_flat_lt_lex(rs, p, q, i + 1);
        }
    }
}

/// Row-major order is lexicographic order: the point at a smaller position
/// comes first lexicographically.
pub proof fn lemma_row_major_is_lexicographic(rs: Seq<Range<i64>>, j: int, k: int)
    requires
        0 <= j < k < domain_size(rs),
    ensures
        lex_less(point_at(rs, j), point_at(rs, k)),
{
    lemma_point_at(rs, j);
    lemma_point_at(rs, k);
    lemma_flat_lt_lex(rs, point_at(rs, j), point_at(rs, k), 0);
}

/// From the state before the first point, the first odometer step goes to
/// the start point, when no range is empty.
pub proof fn lemma_odometer_fresh(rs: Seq<Range<i64>>)
    requires
        rs.len() >= 1,
        all_nonempty(rs),
        rs[rs.len() - 1].start > i64::MIN,
    ensures
        odometer(rs, fresh_point(rs), rs.len() - 1) == (start_point(rs), false),
{
    let last = rs.len() - 1;
    let f = fresh_point(rs);
    assert(f[last] + 1 < rs[last].end);
    assert(f.update(last, (f[last] + 1) as i64) =~= start_point(rs));
}

/// Odometer steps from the state at position `pos` (`-1` before the first
/// point) hand out the points at positions `pos + 1`, `pos + 2`, ... and
/// `None` once the last point has been passed.
proof fn lemma_traversal_from(rs: Seq<Range<i64>>, cur: Seq<i64>, pos: int, m: nat)
    requires
        rs.len() >= 1,
        all_nonempty(rs),
        rs[rs.len() - 1].start > i64::MIN,
        (pos == -1 && cur == fresh_point(rs)) || (0 <= pos < domain_size(rs) && contains_point(rs, cur)
            && flat_index(rs, cur) == pos),
        pos + m <= domain_size(rs),
    ensures
        traversal(rs, cur, m).len() == m,
        forall|j: int| 0 <= j < m ==> #[trigger] traversal(rs, cur, m)[j] == if pos + 1 + j < domain_size(rs) {
            Some(point_at(rs, pos + 1 + j))
        } else {
            None::<Seq<i64>>
        },
    decreases m,
{
    if m > 0 {
        let (nc, done) = odometer(rs, cur, rs.len() - 1);
        if pos == -1 {
            lemma_odometer_fresh(rs);
            lemma_start_point(rs);
            lemma_size_from_mono(rs, 0, 0);
        } else {
            lemma_odometer_successor(rs, cur);
        }
        let head = if done { None::<Seq<i64>> } else { Some(nc) };
        if pos + 1 < domain_size(rs) {
            assert(!done && contains_point(rs, nc) && flat_index(rs, nc) == pos + 1);
            lemma_point_at_flat(rs, nc);
            lemma_traversal_from(rs, nc, pos + 1, (m - 1) as nat);
        } else {
            assert(done);
        }
        let rest = traversal(rs, nc, (m - 1) as nat);
        assert(traversal(rs, cur, m) == seq![head] + rest);
        assert forall|j: int| 0 <= j < m implies #[trigger] traversal(rs, cur, m)[j] == if pos + 1 + j < domain_size(
            rs,
        ) {
            Some(point_at(rs, pos + 1 + j))
        } else {
            None::<Seq<i64>>
        } by {
            if j > 0 {
                assert(traversal(rs, cur, m)[j] == rest[j - 1]);
            }
        }
    }
}

/// A traversal of a domain with no empty range hands out, in its first
/// `size` steps, every point of the domain once, in row-major (that is,
/// lexicographic) order, the `k`-th of them at row-major position `k`; the
/// step after that hands out nothing.
pub proof fn lemma_traversal_row_major(rs: Seq<Range<i64>>)
    requires
        rs.len() >= 1,
        all_nonempty(rs),
        rs[rs.len() - 1].start > i64::MIN,
    ensures
        ({
            let xs = traversal(rs, fresh_point(rs), domain_size(rs) + 1);
            &&& xs.len() == domain_size(rs) + 1
            &&& forall|k: int| 0 <= k < domain_size(rs) ==> #[trigger] xs[k] == Some(point_at(rs, k))
                && contains_point(rs, point_at(rs, k)) && flat_index(rs, point_at(rs, k)) == k
            &&& xs[domain_size(rs) as int] == None::<Seq<i64>>
            &&& forall|j: int, k: int| 0 <= j < k < domain_size(rs) ==> lex_less(
                #[trigger] point_at(rs, j),
                #[trigger] point_at(rs, k),
            )
            &&& forall|p: Seq<i64>| #[trigger] contains_point(rs, p) ==> 0 <= flat_index(rs, p) < domain_size(rs)
                && xs[flat_index(rs, p)] == Some(p)
        }),
{
    let n = domain_size(rs);
    lemma_traversal_from(rs, fresh_point(rs), -1, n + 1);
    let xs = traversal(rs, fresh_point(rs), n + 1);
    assert(xs.len() == n + 1);
    assert(xs[n as int] == if -1 + 1 + n < n { Some(point_at(rs, -1 + 1 + n)) } else { None::<Seq<i64>> });
    assert(xs[n as int] == None::<Seq<i64>>);
    assert forall|k: int| 0 <= k < n implies #[trigger] xs[k] == Some(point_at(rs, k)) && contains_point(
        rs,
        point_at(rs, k),
    ) && flat_index(rs, point_at(rs, k)) == k by {
        assert(xs[k] == if -1 + 1 + k < n { Some(point_at(rs, -1 + 1 + k)) } else { None::<Seq<i64>> });
        lemma_point_at(rs, k);
    }
    assert forall|j: int, k: int| 0 <= j < k < n implies lex_less(#[trigger] point_at(rs, j), #[trigger] point_at(rs, k)) by {
        lemma_row_major_is_lexicographic(rs, j, k);
    }
    assert forall|p: Seq<i64>| #[trigger] contains_point(rs, p) implies 0 <= flat_index(rs, p) < n
        && xs[flat_index(rs, p)] == Some(p) by {
        lemma_flat_bounds(rs, p, 0);
        lemma_point_at_flat(rs, p);
        let k = flat_index(rs, p);
        assert(xs[k] == if -1 + 1 + k < n { Some(point_at(rs, -1 + 1 + k)) } else { None::<Seq<i64>> });
    }
}

/// For a point of a domain whose size fits in `i64` and `usize`, computing
/// its row-major position stays within `i64`.
pub proof fn lemma_point_flat_fits(rs: Seq<Range<i64>>, p: Seq<i64>)
    requires
        contains_point(rs, p),
        domain_size(rs) <= i64::MAX,
        domain_size(rs) <= usize::MAX,
    ensures
        flat_fits(rs, p),
{
    lemma_point_nonempty(rs, p);
    assert forall|j: nat| j < rs.len() implies #[trigger] flat_step_fits(rs, p, j) by {
        lemma_flat_bounds(rs, p, j);
        lemma_flat_bounds(rs, p, j + 1);
        lemma_size_from_mono(rs, 0, j);
        lemma_size_from_mono(rs, j, j + 1);
        lemma_size_from_unfold(rs, j);
        let off = p[j as int] - rs[j as int].start;
        let s = size_from(rs, j + 1) as int;
        let l = range_len(rs[j as int]) as int;
        lemma_mul_nonnegative(off, s);
        lemma_mul_inequality(1, s, l);
        lemma_mul_is_commutative(l, s);
    }
}


/// One odometer step from `cur` over dimensions `pos` down to 0 never
/// raises a coordinate that is already `i64::MAX`: every coordinate the
/// carry reaches is below `i64::MAX`.
pub open spec fn odometer_safe(rs: Seq<Range<i64>>, cur: Seq<i64>, pos: int) -> bool
    decreases pos + 1,
{
    if pos < 0 {
        true
    } else {
        &&& cur[pos] < i64::MAX
        &&& (cur[pos] + 1 >= rs[pos].end ==> odometer_safe(rs, cur.update(pos, rs[pos].start), pos - 1))
    }
}

/// Whether a step is safe depends only on the coordinates up to `pos`.
pub proof fn lemma_odometer_safe_agree(rs: Seq<Range<i64>>, c: Seq<i64>, d: Seq<i64>, pos: int)
    requires
        pos < c.len(),
        c.len() == d.len(),
        forall|i: int| 0 <= i <= pos ==> c[i] == d[i],
    ensures
        odometer_safe(rs, c, pos) == odometer_safe(rs, d, pos),
    decreases pos + 1,
{
    if pos >= 0 {
        lemma_odometer_safe_agree(rs, c.update(pos, rs[pos].start), d.update(pos, rs[pos].start), pos - 1);
    }
}

/// With no empty range, a step is safe from any coordinates below
/// `i64::MAX`: a reset coordinate goes back to the start of its range, which
/// lies below the end.
pub proof fn lemma_odometer_safe_below(rs: Seq<Range<i64>>, c: Seq<i64>, pos: int)
    requires
        all_nonempty(rs),
        pos < c.len(),
        c.len() == rs.len(),
        forall|i: int| 0 <= i <= pos ==> c[i] < i64::MAX,
    ensures
        odometer_safe(rs, c, pos),
    decreases pos + 1,
{
    if pos >= 0 {
        assert(rs[pos].start < rs[pos].end);
        lemma_odometer_safe_below(rs, c.update(pos, rs[pos].start), pos - 1);
    }
}

/// With no empty range, a step is safe from the state before the first
/// point and from every point.
pub proof fn lemma_odometer_safe_on_track(rs: Seq<Range<i64>>, cur: Seq<i64>)
    requires
        all_nonempty(rs),
        rs.len() >= 1,
        rs[rs.len() - 1].start > i64::MIN,
        cur == fresh_point(rs) || contains_point(rs, cur),
    ensures
        odometer_safe(rs, cur, rs.len() - 1),
{
    assert forall|i: int| 0 <= i <= rs.len() - 1 implies cur[i] < i64::MAX by {
        assert(rs[i].start < rs[i].end);
        if contains_point(rs, cur) {
            assert(rs[i].start <= cur[i] < rs[i].end);
        }
    }
    lemma_odometer_safe_below(rs, cur, rs.len() - 1);
}


/// A point that lies in two domains of equal dimension lies in their
/// intersection, in every dimension.
pub proof fn lemma_intersect_keeps_common_points(a: Seq<Range<i64>>, b: Seq<Range<i64>>, p: Seq<i64>)
    requires
        a.len() == b.len(),
        contains_point(a, p),
        contains_point(b, p),
    ensures
        contains_point(intersect_domains(a, b), p),
{
    let c = intersect_domains(a, b);
    assert forall|i: int| #![trigger p[i]] 0 <= i < c.len() implies c[i].start <= p[i] < c[i].end by {
        assert(a[i].start <= p[i] < a[i].end);
        assert(b[i].start <= p[i] < b[i].end);
        assert(c[i] == intersect_range(a[i], b[i]));
    }
}

/// Every point of a domain that lies inside another is a point of the
/// other.
pub proof fn lemma_subdomain_points(a: Seq<Range<i64>>, b: Seq<Range<i64>>, p: Seq<i64>)
    requires
        subdomain_of(a, b),
        contains_point(a, p),
    ensures
        contains_point(b, p),
{
    assert forall|i: int| #![trigger p[i]] 0 <= i < b.len() implies b[i].start <= p[i] < b[i].end by {
        assert(b[i].start <= a[i].start && a[i].end <= b[i].end);
    }
}

/// A domain strictly inside another keeps a margin on both sides in every
/// dimension: for each of its points, the points one step lower and one step
/// higher along any dimension are points of the outer domain.
pub proof fn lemma_strict_subdomain_margin(a: Seq<Range<i64>>, b: Seq<Range<i64>>, p: Seq<i64>, i: int)
    requires
        strict_subdomain_of(a, b),
        contains_point(a, p),
        0 <= i < a.len(),
    ensures
        contains_point(b, p.update(i, (p[i] - 1) as i64)),
        contains_point(b, p.update(i, (p[i] + 1) as i64)),
{
    assert(b[i].start < a[i].start && a[i].end < b[i].end);
    assert(a[i].start <= p[i] < a[i].end);
    let lo = p.update(i, (p[i] - 1) as i64);
    let hi = p.update(i, (p[i] + 1) as i64);
    assert forall|k: int| #![trigger lo[k]] 0 <= k < b.len() implies b[k].start <= lo[k] < b[k].end by {
        assert(b[k].start < a[k].start && a[k].end < b[k].end);
        assert(a[k].start <= p[k] < a[k].end);
    }
    assert forall|k: int| #![trigger hi[k]] 0 <= k < b.len() implies b[k].start <= hi[k] < b[k].end by {
        assert(b[k].start < a[k].start && a[k].end < b[k].end);
        assert(a[k].start <= p[k] < a[k].end);
    }
}

} // verus!
