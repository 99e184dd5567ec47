//! Rectangular index domains.

use vstd::prelude::*;
use vstd::arithmetic::mul::*;
use vstd::arithmetic::div_mod::*;
use std::ops::Range;
use crate::index_math::{
    flat_fits, flat_step_fits,    all_nonempty,    contains_point, domain_size, flat_from, flat_index, intersect_domains, lemma_flat_bounds,
    lemma_prefix_times_suffix, lemma_size_from_unfold, products_bounded,
    range_len, size_from, size_prefix, split_extent, split_fits, split_part, split_range,
    strict_subdomain_of, subdomain_of,
};

verus! {

/// A rectangular box of integer points, one half-open range per dimension.
pub struct Domain {
    ranges: Vec<Range<i64>>,
    dim: usize,
}

impl View for Domain {
    type V = Seq<Range<i64>>;

    closed spec fn view(&self) -> Seq<Range<i64>> {
        self.ranges@
    }
}

/// Copies a range field by field.
fn copy_range(r: &Range<i64>) -> (c: Range<i64>)
    ensures
        c == *r,
{
    Range { start: r.start, end: r.end }
}

impl Domain {
    #[verifier::type_invariant]
    spec fn inv(self) -> bool {
        self.ranges@.len() == self.dim
    }

    /// The number of dimensions.
    pub fn dim(&self) -> (d: usize)
        ensures
            d == self@.len(),
    {
        proof {
            use_type_invariant(self);
        }
        self.dim
    }

    /// The domain whose dimension `i` runs from `lower[i]` to `upper[i]`,
    /// both included.
    pub fn new_from_bounds(lower: &Vec<i64>, upper: &Vec<i64>) -> (d: Domain)
        requires
            upper.len() == lower.len(),
            upper.len() >= 1,
            forall|i: int| 0 <= i < upper.len() ==> lower[i] <= upper[i],
            forall|i: int| 0 <= i < upper.len() ==> upper[i] < i64::MAX,
        ensures
            d@.len() == upper.len(),
            forall|i: int| #![trigger d@[i]] 0 <= i < upper.len() ==> d@[i].start == lower[i] && d@[i].end == upper[i] + 1,
    {
        let n = upper.len();
        let mut ranges: Vec<Range<i64>> = Vec::new();
        for k in 0..n
            invariant
                n == upper.len(),
                n == lower.len(),
                forall|i: int| 0 <= i < upper.len() ==> upper[i] < i64::MAX,
                ranges@.len() == k,
                forall|i: int| #![trigger ranges@[i]] 0 <= i < k ==> ranges@[i].start == lower[i] && ranges@[i].end == upper[i] + 1,
        {
            ranges.push(Range { start: lower[k], end: upper[k] + 1 });
            assert(ranges@[k as int].start == lower[k as int]);
        }
        Domain { dim: n, ranges }
    }

    /// The domain with the given ranges.
    pub fn new_from_ranges(ranges: &Vec<Range<i64>>) -> (d: Domain)
        ensures
            d@ == ranges@,
    {
        let n = ranges.len();
        let mut copy: Vec<Range<i64>> = Vec::new();
        for k in 0..n
            invariant
                n == ranges.len(),
                copy@ == ranges@.take(k as int),
        {
            copy.push(copy_range(&ranges[k]));
            assert(copy@ =~= ranges@.take(k + 1));
        }
        assert(ranges@.take(n as int) =~= ranges@);
        Domain { dim: n, ranges: copy }
    }

    /// The points that lie in both domains, dimension by dimension.
    pub fn intersect(&self, other: &Domain) -> (d: Domain)
        requires
            self@.len() == other@.len(),
        ensures
            d@ == intersect_domains(self@, other@),
    {
        proof {
            use_type_invariant(self);
            use_type_invariant(other);
        }
        let n = self.dim;
        let mut ranges: Vec<Range<i64>> = Vec::new();
        for k in 0..n
            invariant
                n == self.dim,
                self.ranges@.len() == n,
                other.ranges@.len() == n,
                ranges@ == intersect_domains(self@, other@).take(k as int),
        {
            let a = &self.ranges[k];
            let b = &other.ranges[k];
            let start = if a.start >= b.start { a.start } else { b.start };
            let end = if a.end <= b.end { a.end } else { b.end };
            ranges.push(Range { start, end });
            assert(ranges@ =~= intersect_domains(self@, other@).take(k + 1));
        }
        assert(intersect_domains(self@, other@).take(n as int) =~= intersect_domains(self@, other@));
        Domain { dim: n, ranges }
    }

    /// Cuts the first dimension into `partitions` slabs of equal width
    /// (rounded up), the last one cut off at the end of the range; the other
    /// dimensions are kept whole.
    pub fn split(&self, partitions: usize) -> (parts: Vec<Domain>)
        requires
            self@.len() >= 1,
            split_fits(self@, partitions as nat),
        ensures
            parts@.len() == partitions,
            forall|k: int| 0 <= k < partitions ==> #[trigger] parts@[k]@ == split_part(self@, partitions as nat, k),
    {
        proof {
            use_type_invariant(self);
        }
        let mut parts: Vec<Domain> = Vec::new();
        if partitions == 0 {
            return parts;
        }
        let len = self.size_of_dim(0);
        let q = len / partitions;
        proof {
            lemma_fundamental_div_mod(len as int, partitions as int);
            lemma_mul_inequality(1, partitions as int, q as int);
            lemma_mul_is_commutative(partitions as int, q as int);
        }
        let extent_u = if len % partitions != 0 { q + 1 } else { q };
        proof {
            let n = partitions as int;
            let q = len as int / n;
            let r = len as int % n;
            lemma_fundamental_div_mod(len as int, n);
            lemma_mul_is_commutative(n, q);
            if r != 0 {
                lemma_mul_is_distributive_add_other_way(n, q, 1);
                lemma_fundamental_div_mod_converse(len as int + n - 1, n, q + 1, r - 1);
            } else {
                lemma_fundamental_div_mod_converse(len as int + n - 1, n, q, n - 1);
            }
        }
        let extent = extent_u as i64;
        let end = self.dim_range(0).end;
        let base = self.dim_range(0).start;
        for p in 0..partitions
            invariant
                partitions > 0,
                self.ranges@.len() == self.dim,
                self.dim >= 1,
                split_fits(self@, partitions as nat),
                extent == split_extent(self@, partitions as nat),
                base == self@[0].start,
                end == self@[0].end,
                parts@.len() == p,
                forall|k: int| 0 <= k < p ==> #[trigger] parts@[k]@ == split_part(self@, partitions as nat, k),
        {
            proof {
                assert(0 <= extent);
                lemma_mul_inequality(p as int + 1, partitions as int, extent as int);
                lemma_mul_nonnegative(p as int, extent as int);
                lemma_mul_is_distributive_add_other_way(extent as int, p as int, 1);
            }
            assert((p as int) * (extent as int) <= 0x7fff_ffff_ffff_ffff_ffff_ffff_ffff_ffff_ffff_ffff_ffff_ffff_ffff_ffff_ffff_ffffint) by (nonlinear_arith)
                requires
                    0 <= p <= usize::MAX,
                    0 <= extent <= i64::MAX,
            ;
            let lo = (base as i128 + (p as i128) * (extent as i128)) as i64;
            let hi_raw = (base as i128 + (p as i128 + 1) * (extent as i128)) as i64;
            let hi = if hi_raw <= end { hi_raw } else { end };
            let mut ranges: Vec<Range<i64>> = Vec::new();
            ranges.push(Range { start: lo, end: hi });
            let mut j: usize = 1;
            while j < self.dim
                invariant
                    1 <= j <= self.dim,
                    self.ranges@.len() == self.dim,
                    ranges@ == seq![Range { start: lo, end: hi }] + self@.subrange(1, j as int),
                decreases self.dim - j,
            {
                ranges.push(copy_range(&self.ranges[j]));
                assert(ranges@ =~= seq![Range { start: lo, end: hi }] + self@.subrange(1, j + 1));
                j += 1;
            }
            let ghost r0 = split_range(self@, partitions as nat, p as int);
            assert(r0 == Range { start: lo, end: hi });
            assert(ranges@ =~= split_part(self@, partitions as nat, p as int));
            parts.push(Domain { dim: self.dim, ranges });
        }
        parts
    }

    /// Whether `split(partitions)` can be called: the domain has a first
    /// dimension, and the slab arithmetic stays within `usize` and `i64`.
    pub fn split_is_safe(&self, partitions: usize) -> (b: bool)
        ensures
            b == (self@.len() >= 1 && split_fits(self@, partitions as nat)),
    {
        proof {
            use_type_invariant(self);
        }
        if self.dim == 0 {
            return false;
        }
        let r = &self.ranges[0];
        let len: i128 = if r.start < r.end { (r.end as i128) - (r.start as i128) } else { 0 };
        if len > usize::MAX as i128 {
            return false;
        }
        if partitions == 0 {
            return true;
        }
        let n = partitions as i128;
        let extent = (len + n - 1) / n;
        proof {
            lemma_fundamental_div_mod(len as int + n - 1, n as int);
            lemma_div_pos_is_pos(len as int + n - 1, n as int);
            lemma_mul_inequality(1, n as int, extent as int);
            lemma_mul_is_commutative(n as int, extent as int);
            assert(extent == split_extent(self@, partitions as nat));
        }
        if extent > i64::MAX as i128 {
            return false;
        }
        proof {
            assert((n as int) * (extent as int) <= 0x7fff_ffff_ffff_ffff_ffff_ffff_ffff_ffffint) by (nonlinear_arith)
                requires
                    0 < n <= usize::MAX,
                    0 <= extent <= i64::MAX,
            ;
        }
        (r.start as i128) + n * extent <= i64::MAX as i128
    }

    /// Row-major position of `args` in the domain, the last coordinate
    /// varying fastest: from the last dimension down, the offset of each
    /// coordinate from the start of its range times the number of points in
    /// the dimensions after it, summed up in `i64` and cast to `usize`.
    /// For a point of the domain this is its position in `0 .. size`;
    /// for other arguments it is the same sum, which may name another
    /// point's cell or wrap round in the cast.
    pub fn flat_idx(&self, args: &[i64]) -> (idx: usize)
        requires
            args@.len() == self@.len(),
            flat_fits(self@, args@),
        ensures
            idx == flat_index(self@, args@) as usize,
            contains_point(self@, args@) ==> 0 <= flat_index(self@, args@) < domain_size(self@),
    {
        proof {
            use_type_invariant(self);
            if contains_point(self@, args@) {
                lemma_flat_bounds(self@, args@, 0);
            }
        }
        let ghost rs = self@;
        let mut idx: i64 = 0;
        let mut mult: i64 = 1;
        let mut i = self.dim;
        while i > 0
            invariant
                i <= self.dim,
                rs == self@,
                self.ranges@.len() == self.dim,
                flat_fits(rs, args@),
                idx == flat_from(rs, args@, i as nat),
                mult == size_from(rs, i as nat),
            decreases i,
        {
            i -= 1;
            proof {
                assert(flat_step_fits(rs, args@, i as nat));
                lemma_size_from_unfold(rs, i as nat);
                lemma_mul_is_commutative(range_len(rs[i as int]) as int, mult as int);
            }
            let r = &self.ranges[i];
            idx = idx + (args[i] - r.start) * mult;
            let count: i64 = if r.start < r.end { r.end - r.start } else { 0 };
            mult = mult * count;
        }
        idx as usize
    }

    /// Whether every running product of the range lengths, and every single
    /// length, fits in `usize`: what `size` needs to run.
    pub fn products_fit(&self) -> (b: bool)
        ensures
            b == products_bounded(self@, usize::MAX as int),
    {
        proof {
            use_type_invariant(self);
        }
        let mut mult: usize = 1;
        let mut i: usize = 0;
        while i < self.dim
            invariant
                i <= self.dim,
                self.ranges@.len() == self.dim,
                mult == size_prefix(self@, i as nat),
                forall|k: nat| k <= i ==> #[trigger] size_prefix(self@, k) <= usize::MAX,
                forall|j: int| 0 <= j < i ==> #[trigger] range_len(self@[j]) <= usize::MAX,
            decreases self.dim - i,
        {
            let r = &self.ranges[i];
            let len: i128 = if r.start < r.end { (r.end as i128) - (r.start as i128) } else { 0 };
            if len > usize::MAX as i128 {
                proof {
                    assert(range_len(self@[i as int]) > usize::MAX);
                }
                return false;
            }
            match mult.checked_mul(len as usize) {
                None => {
                    proof {
                        assert(size_prefix(self@, (i + 1) as nat) > usize::MAX);
                    }
                    return false;
                },
                Some(m) => {
                    mult = m;
                },
            }
            i += 1;
        }
        true
    }

    /// Number of points of the domain.
    pub fn size(&self) -> (s: usize)
        requires
            products_bounded(self@, usize::MAX as int),
        ensures
            s == domain_size(self@),
    {
        proof {
            use_type_invariant(self);
        }
        let mut mult: usize = 1;
        for i in 0..self.dim
            invariant
                self.ranges@.len() == self.dim,
                products_bounded(self@, usize::MAX as int),
                mult == size_prefix(self@, i as nat),
        {
            let l = self.size_of_dim(i);
            proof {
                assert(size_prefix(self@, (i + 1) as nat) <= usize::MAX);
            }
            mult = mult * l;
        }
        proof {
            lemma_prefix_times_suffix(self@, self.dim as nat);
            lemma_mul_basics(size_prefix(self@, self.dim as nat) as int);
        }
        mult
    }

    /// Number of values in the range of dimension `dim`.
    pub fn size_of_dim(&self, dim: usize) -> (s: usize)
        requires
            dim < self@.len(),
            range_len(self@[dim as int]) <= usize::MAX,
        ensures
            s == range_len(self@[dim as int]),
    {
        proof {
            use_type_invariant(self);
        }
        let r = &self.ranges[dim];
        if r.start < r.end {
            ((r.end as i128) - (r.start as i128)) as usize
        } else {
            0
        }
    }

    /// The range of dimension `dim`.
    pub fn dim_range(&self, dim: usize) -> (r: Range<i64>)
        requires
            dim < self@.len(),
        ensures
            r == self@[dim as int],
    {
        proof {
            use_type_invariant(self);
        }
        copy_range(&self.ranges[dim])
    }

    /// Whether some range of the domain is empty.
    pub fn has_empty_range(&self) -> (b: bool)
        ensures
            b == !all_nonempty(self@),
    {
        proof {
            use_type_invariant(self);
        }
        for i in 0..self.dim
            invariant
                self.ranges@.len() == self.dim,
                forall|k: int| 0 <= k < i ==> #[trigger] self@[k].start < self@[k].end,
        {
            if self.ranges[i].start >= self.ranges[i].end {
                return true;
            }
        }
        false
    }

    /// Whether this domain lies inside `other`.
    pub fn is_subdomain(&self, other: &Domain) -> (b: bool)
        ensures
            b == subdomain_of(self@, other@),
    {
        proof {
            use_type_invariant(self);
            use_type_invariant(other);
        }
        if self.dim != other.dim {
            return false;
        }
        let mut acc = true;
        for i in 0..self.dim
            invariant
                self.ranges@.len() == self.dim,
                other.ranges@.len() == self.dim,
                acc == forall|k: int| #![trigger self@[k]] 0 <= k < i ==> other@[k].start <= self@[k].start && self@[k].end <= other@[k].end,
        {
            let ok = self.ranges[i].start >= other.ranges[i].start && self.ranges[i].end <= other.ranges[i].end;
            let ghost old_acc = acc;
            acc = acc && ok;
            assert(acc == forall|k: int| #![trigger self@[k]] 0 <= k < i + 1 ==> other@[k].start <= self@[k].start && self@[k].end <= other@[k].end) by {
                if old_acc && ok {
                    assert forall|k: int| #![trigger self@[k]] 0 <= k < i + 1 implies other@[k].start <= self@[k].start && self@[k].end <= other@[k].end by {
                    }
                } else if !ok {
                    assert(!(other@[i as int].start <= self@[i as int].start && self@[i as int].end <= other@[i as int].end));
                }
            }
        }
        acc
    }

    /// Whether this domain lies strictly inside `other`.
    pub fn is_strict_subdomain(&self, other: &Domain) -> (b: bool)
        ensures
            b == strict_subdomain_of(self@, other@),
    {
        proof {
            use_type_invariant(self);
            use_type_invariant(other);
        }
        if self.dim != other.dim {
            return false;
        }
        let mut acc = true;
        for i in 0..self.dim
            invariant
                self.ranges@.len() == self.dim,
                other.ranges@.len() == self.dim,
                acc == forall|k: int| #![trigger self@[k]] 0 <= k < i ==> other@[k].start < self@[k].start && self@[k].end < other@[k].end,
        {
            let ok = self.ranges[i].start > other.ranges[i].start && self.ranges[i].end < other.ranges[i].end;
            let ghost old_acc = acc;
            acc = acc && ok;
            assert(acc == forall|k: int| #![trigger self@[k]] 0 <= k < i + 1 ==> other@[k].start < self@[k].start && self@[k].end < other@[k].end) by {
                if old_acc && ok {
                    assert forall|k: int| #![trigger self@[k]] 0 <= k < i + 1 implies other@[k].start < self@[k].start && self@[k].end < other@[k].end by {
                    }
                } else if !ok {
                    assert(!(other@[i as int].start < self@[i as int].start && self@[i as int].end < other@[i as int].end));
                }
            }
        }
        acc
    }
}

impl Clone for Domain {
    fn clone(&self) -> (d: Self)
        ensures
            d@ == self@,
    {
        proof {
            use_type_invariant(self);
        }
        let n = self.dim;
        let mut copy: Vec<Range<i64>> = Vec::new();
        for k in 0..n
            invariant
                n == self.dim,
                self.ranges@.len() == n,
                copy@ == self@.take(k as int),
        {
            copy.push(copy_range(&self.ranges[k]));
            assert(copy@ =~= self@.take(k + 1));
        }
        assert(self@.take(n as int) =~= self@);
        Domain { dim: n, ranges: copy }
    }
}

impl PartialEq for Domain {
    fn eq(&self, other: &Domain) -> (b: bool) {
        proof {
            use_type_invariant(self);
            use_type_invariant(other);
        }
        if self.dim != other.dim {
            return false;
        }
        for i in 0..self.dim
            invariant
                self.ranges@.len() == self.dim,
                other.ranges@.len() == self.dim,
                forall|k: int| 0 <= k < i ==> #[trigger] self@[k] == other@[k],
        {
            if self.ranges[i].start != other.ranges[i].start || self.ranges[i].end != other.ranges[i].end {
                return false;
            }
        }
        assert(self@ =~= other@);
        true
    }
}

impl vstd::std_specs::cmp::PartialEqSpecImpl for Domain {
    open spec fn obeys_eq_spec() -> bool {
        true
    }

    open spec fn eq_spec(&self, other: &Domain) -> bool {
        self@ == other@
    }
}

} // verus!
