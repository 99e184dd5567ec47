//! Row-major traversal of the points of a domain.

use vstd::prelude::*;
use std::ops::Range;
use crate::domain::Domain;
use crate::index_math::{
    all_nonempty, contains_point, domain_size, flat_index, lemma_odometer_successor,
    fresh_point, lemma_odometer_safe_agree, lemma_odometer_safe_on_track, lemma_size_from_mono, odometer_safe, lemma_start_point, odometer, start_point,
};

verus! {

/// A traversal of the ranges can be started: at least one dimension, and a
/// last range whose start has a predecessor in `i64`.
pub open spec fn traversable(rs: Seq<Range<i64>>) -> bool {
    &&& rs.len() >= 1
    &&& rs[rs.len() - 1].start > i64::MIN
}

/// A traversal started on these ranges hands out exactly their points, with
/// no step overflowing: it can be started, and either no range is empty, or
/// the very first step is safe and already runs past the first dimension
/// (so that nothing is handed out).
pub open spec fn traversal_safe(rs: Seq<Range<i64>>) -> bool {
    &&& traversable(rs)
    &&& (all_nonempty(rs) || (odometer_safe(rs, fresh_point(rs), rs.len() - 1) && odometer(
        rs,
        fresh_point(rs),
        rs.len() - 1,
    ).1))
}

/// A traversal of the points of a domain in row-major order, the last
/// dimension varying fastest. It remembers the point it last handed out.
#[allow(non_camel_case_types)]
pub struct Domain_Iter {
    current: Vec<i64>,
    domain: Domain,
}

impl Domain_Iter {
    #[verifier::type_invariant]
    spec fn inv(self) -> bool {
        &&& traversable(self.domain@)
        &&& self.current@.len() == self.domain@.len()
    }

    /// The ranges being traversed.
    pub closed spec fn ranges(&self) -> Seq<Range<i64>> {
        self.domain@
    }

    /// The coordinates the traversal stands at.
    pub closed spec fn current(&self) -> Seq<i64> {
        self.current@
    }

    /// The next step raises no coordinate that is already `i64::MAX`.
    pub open spec fn step_safe(&self) -> bool {
        odometer_safe(self.ranges(), self.current(), self.ranges().len() - 1)
    }

    /// The traversal stands before the first point, or at a point.
    pub open spec fn on_track(&self) -> bool {
        self.current() == fresh_point(self.ranges()) || contains_point(self.ranges(), self.current())
    }

    /// Row-major number of the point the traversal stands at; `-1` before the
    /// first point.
    pub open spec fn position(&self) -> int {
        if self.current() == fresh_point(self.ranges()) {
            -1
        } else {
            flat_index(self.ranges(), self.current())
        }
    }

    /// A traversal of `domain` that stands before its first point.
    pub fn new(domain: &Domain) -> (it: Domain_Iter)
        requires
            traversable(domain@),
        ensures
            it.ranges() == domain@,
            it.current() == fresh_point(domain@),
            it.on_track(),
            it.position() == -1,
            all_nonempty(domain@) ==> it.step_safe(),
    {
        let dim = domain.dim();
        let mut vec: Vec<i64> = Vec::new();
        for k in 0..dim
            invariant
                dim == domain@.len(),
                traversable(domain@),
                vec@ == start_point(domain@).take(k as int),
        {
            vec.push(domain.dim_range(k).start);
            assert(vec@ =~= start_point(domain@).take(k + 1));
        }
        assert(vec@ =~= start_point(domain@));
        let last = domain.dim_range(dim - 1).start;
        vec.set(dim - 1, last - 1);
        assert(vec@ =~= fresh_point(domain@));
        proof {
            if all_nonempty(domain@) {
                lemma_odometer_safe_on_track(domain@, vec@);
            }
        }
        Domain_Iter { domain: domain.clone(), current: vec }
    }

    /// Steps the odometer: the last coordinate goes up by one, and where a
    /// coordinate reaches the end of its range it goes back to the start and
    /// the step carries into the dimension before. Hands out the new point,
    /// or `None` when the carry ran past the first dimension. On a domain with
    /// no empty range this walks the points in row-major order: from the
    /// state before the first point, or from a point, it hands out the point
    /// numbered one higher, and after the last point it answers `None` and
    /// stands at the first point; every such step is safe.
    pub fn next(&mut self) -> (r: Option<Vec<i64>>)
        requires
            old(self).step_safe(),
        ensures
            final(self).ranges() == old(self).ranges(),
            (final(self).current(), r is None) == odometer(
                old(self).ranges(),
                old(self).current(),
                old(self).ranges().len() - 1,
            ),
            r matches Some(v) ==> v@ == final(self).current(),
            all_nonempty(old(self).ranges()) && old(self).on_track() ==> {
                &&& contains_point(final(self).ranges(), final(self).current())
                &&& final(self).on_track()
                &&& final(self).step_safe()
                &&& old(self).position() + 1 < domain_size(old(self).ranges()) ==> r is Some
                    && final(self).position() == old(self).position() + 1
                &&& old(self).position() + 1 >= domain_size(old(self).ranges()) ==> r is None
                    && final(self).current() == start_point(old(self).ranges())
            },
    {
        proof {
            use_type_invariant(&*self);
        }
        let ghost rs = self.domain@;
        let ghost c0 = self.current@;
        let dim = self.domain.dim();
        let mut cur = self.current.clone();
        assert(cur@ =~= c0);
        let mut bad = true;
        let mut pos = dim;
        assert(odometer_safe(rs, cur@, dim - 1));
        while pos > 0 && bad
            invariant
                pos <= dim,
                dim == rs.len(),
                rs == self.domain@,
                traversable(rs),
                cur@.len() == dim,
                bad ==> odometer_safe(rs, cur@, pos - 1),
                bad ==> odometer(rs, c0, dim - 1) == odometer(rs, cur@, pos - 1),
                !bad ==> odometer(rs, c0, dim - 1) == (cur@, false),
            decreases pos,
        {
            pos -= 1;
            let r = self.domain.dim_range(pos);
            let v = cur[pos] + 1;
            if v >= r.end {
                cur.set(pos, r.start);
            } else {
                cur.set(pos, v);
                bad = false;
            }
        }
        self.current = cur;
        proof {
            if all_nonempty(rs) {
                let last = rs.len() - 1;
                if c0 == fresh_point(rs) {
                    assert(c0[last] + 1 < rs[last].end);
                    assert(c0.update(last, (c0[last] + 1) as i64) =~= start_point(rs));
                    lemma_start_point(rs);
                    lemma_size_from_mono(rs, 0, 0);
                } else if contains_point(rs, c0) {
                    lemma_odometer_successor(rs, c0);
                    lemma_start_point(rs);
                }
                if contains_point(rs, self.current@) {
                    assert(self.current@[last] >= rs[last].start);
                    assert(self.current@ != fresh_point(rs));
                    lemma_odometer_safe_on_track(rs, self.current@);
                }
            }
        }
        if bad {
            None
        } else {
            Some(self.current.clone())
        }
    }
}

impl Domain {
    /// A traversal of the points of this domain, standing before the first.
    pub fn iter(&self) -> (it: Domain_Iter)
        requires
            traversable(self@),
        ensures
            it.ranges() == self@,
            it.current() == fresh_point(self@),
            it.on_track(),
            it.position() == -1,
            all_nonempty(self@) ==> it.step_safe(),
    {
        Domain_Iter::new(self)
    }
}


/// From the start point, a step over dimensions `pos` down to 0 is safe
/// and runs past the first dimension exactly when every range up to `pos`
/// starts below `i64::MAX` and holds at most one value.
proof fn lemma_odometer_from_start(rs: Seq<Range<i64>>, pos: int)
    requires
        -1 <= pos < rs.len(),
    ensures
        (odometer_safe(rs, start_point(rs), pos) && odometer(rs, start_point(rs), pos).1) <==> forall|i: int|
            0 <= i <= pos ==> #[trigger] rs[i].start < i64::MAX && rs[i].start + 1 >= rs[i].end,
    decreases pos + 1,
{
    if pos >= 0 {
        assert(start_point(rs).update(pos, rs[pos].start) =~= start_point(rs));
        lemma_odometer_from_start(rs, pos - 1);
    }
}

/// The first step of a traversal is safe and runs past the first dimension
/// exactly when the last range is empty and every other range starts below
/// `i64::MAX` and holds at most one value.
proof fn lemma_first_step_done(rs: Seq<Range<i64>>)
    requires
        traversable(rs),
    ensures
        (odometer_safe(rs, fresh_point(rs), rs.len() - 1) && odometer(rs, fresh_point(rs), rs.len() - 1).1) <==> (
        rs[rs.len() - 1].start >= rs[rs.len() - 1].end && forall|i: int| 0 <= i < rs.len() - 1 ==> #[trigger] rs[i].start
            < i64::MAX && rs[i].start + 1 >= rs[i].end),
{
    let last = rs.len() - 1;
    let f = fresh_point(rs);
    assert(f[last] < i64::MAX);
    if f[last] + 1 >= rs[last].end {
        assert(f.update(last, rs[last].start) =~= start_point(rs));
        lemma_odometer_from_start(rs, last - 1);
    }
}

impl Domain_Iter {
    /// Whether the next step is safe: no coordinate the carry reaches is
    /// already `i64::MAX`.
    pub fn can_step(&self) -> (b: bool)
        ensures
            b == self.step_safe(),
    {
        proof {
            use_type_invariant(self);
        }
        let ghost rs = self.domain@;
        let ghost c0 = self.current@;
        let mut pos = self.domain.dim();
        while pos > 0
            invariant
                pos <= rs.len(),
                rs == self.domain@,
                c0 == self.current@,
                c0.len() == rs.len(),
                rs.len() >= 1,
                odometer_safe(rs, c0, rs.len() - 1) == odometer_safe(rs, c0, pos - 1),
            decreases pos,
        {
            pos -= 1;
            let v = self.current[pos];
            if v == i64::MAX {
                return false;
            }
            let r = self.domain.dim_range(pos);
            if v + 1 < r.end {
                return true;
            }
            proof {
                lemma_odometer_safe_agree(rs, c0.update(pos as int, rs[pos as int].start), c0, pos - 1);
            }
        }
        true
    }
}

impl Domain {
    /// Whether a traversal of this domain can be started: at least one
    /// dimension, and a last range whose start has a predecessor in `i64`.
    pub fn is_traversable(&self) -> (b: bool)
        ensures
            b == traversable(self@),
    {
        let dim = self.dim();
        if dim == 0 {
            return false;
        }
        self.dim_range(dim - 1).start != i64::MIN
    }

    /// Whether a traversal of this domain hands out exactly its points with
    /// no step overflowing: it can be started, and either no range is empty,
    /// or the last range is empty and every other range starts below
    /// `i64::MAX` and holds at most one value (so that the traversal ends at
    /// once).
    pub fn traversal_is_safe(&self) -> (b: bool)
        ensures
            b == traversal_safe(self@),
    {
        if !self.is_traversable() {
            return false;
        }
        if !self.has_empty_range() {
            return true;
        }
        proof {
            lemma_first_step_done(self@);
        }
        let dim = self.dim();
        let last = self.dim_range(dim - 1);
        if last.start < last.end {
            return false;
        }
        for i in 0..dim - 1
            invariant
                dim == self@.len(),
                dim >= 1,
                traversable(self@),
                !all_nonempty(self@),
                self@[dim - 1].start >= self@[dim - 1].end,
                (odometer_safe(self@, fresh_point(self@), self@.len() - 1) && odometer(
                    self@,
                    fresh_point(self@),
                    self@.len() - 1,
                ).1) <==> (self@[self@.len() - 1].start >= self@[self@.len() - 1].end && forall|i: int|
                    0 <= i < self@.len() - 1 ==> #[trigger] self@[i].start < i64::MAX && self@[i].start + 1
                    >= self@[i].end),
                forall|k: int| 0 <= k < i ==> #[trigger] self@[k].start < i64::MAX && self@[k].start + 1 >= self@[k].end,
        {
            let r = self.dim_range(i);
            if r.start == i64::MAX {
                return false;
            }
            if r.start + 1 < r.end {
                return false;
            }
        }
        true
    }
}

} // verus!
