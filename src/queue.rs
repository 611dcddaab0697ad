//! Per-element queues of occupied time intervals.
use vstd::prelude::*;

use crate::element::ElementCapacity;

verus! {

/// The end of an interval that never ends.
pub const FOREVER: u64 = 0xffff_ffff_ffff_ffff;

/// A time interval `[start, finish)`; a finish of `FOREVER` leaves it open.
#[derive(Clone, Copy, Debug, PartialEq, Eq, Structural)]
pub struct Interval(pub u64, pub u64);

impl Interval {
    /// Return the start.
    pub fn start(&self) -> (r: u64)
        ensures
            r == self.0,
    {
        self.0
    }

    /// Return the end.
    pub fn finish(&self) -> (r: u64)
        ensures
            r == self.1,
    {
        self.1
    }
}

/// Whether `[a, b)` and `[c, d)` share a point.
pub open spec fn intersect(a: int, b: int, c: int, d: int) -> bool {
    &&& a < d
    &&& c < b
    &&& a < b
    &&& c < d
}

/// Whether no interval of `occupied` shares a point with `[a, b)`.
pub open spec fn vacant(occupied: Seq<Interval>, a: int, b: int) -> bool {
    forall|j: int| 0 <= j < occupied.len() ==> !intersect(occupied[j].0 as int, occupied[j].1 as int, a, b)
}

/// Whether every interval of length `length` that starts at `h` meets an
/// occupied interval.
pub open spec fn blocked(occupied: Seq<Interval>, h: int, length: int) -> bool {
    !vacant(occupied, h, h + length)
}

/// Whether the starts of `occupied` strictly increase.
pub open spec fn ordered(occupied: Seq<Interval>) -> bool {
    forall|i: int, j: int| 0 <= i < j < occupied.len() ==> occupied[i].0 < occupied[j].0
}

/// Whether no interval of `occupied` is empty.
pub open spec fn nonempty(occupied: Seq<Interval>) -> bool {
    forall|j: int| 0 <= j < occupied.len() ==> occupied[j].0 < occupied[j].1
}

/// Whether the start `s` is already taken in `occupied`.
pub open spec fn taken(occupied: Seq<Interval>, s: int) -> bool {
    exists|j: int| 0 <= j < occupied.len() && occupied[j].0 == s
}

/// Whether `b` is where a new interval that asks for the start `s` goes:
/// the first start from `s` on that `occupied` has not taken.
pub open spec fn moved_start(occupied: Seq<Interval>, s: int, b: int) -> bool {
    &&& s <= b
    &&& !taken(occupied, b)
    &&& forall|v: int| s <= v < b ==> taken(occupied, v)
}

/// Whether `after` is `before` with the interval asked for as `[s, f)`
/// placed at the index `i`, its start moved up to `b`.
pub open spec fn occupied_at(before: Seq<Interval>, after: Seq<Interval>, s: int, f: int, b: int, i: int) -> bool {
    &&& 0 <= i <= before.len()
    &&& moved_start(before, s, b)
    &&& after == before.insert(i, Interval(b as u64, if b < f { f as u64 } else { b as u64 }))
}

/// The intervals of `occupied` that end after `time`, in order.
pub open spec fn ending_after(occupied: Seq<Interval>, time: int) -> Seq<Interval>
    decreases occupied.len(),
{
    if occupied.len() == 0 {
        Seq::empty()
    } else {
        let rest = ending_after(occupied.drop_last(), time);
        if occupied.last().1 > time {
            rest.push(occupied.last())
        } else {
            rest
        }
    }
}

/// Every interval that `ending_after` keeps comes from `occupied`.
pub proof fn lemma_ending_after_subset(occupied: Seq<Interval>, time: int)
    ensures
        forall|k: int|
            0 <= k < ending_after(occupied, time).len() ==> exists|j: int|
                0 <= j < occupied.len() && occupied[j] == #[trigger] ending_after(occupied, time)[k],
    decreases occupied.len(),
{
    if occupied.len() > 0 {
        let rest = occupied.drop_last();
        lemma_ending_after_subset(rest, time);
        assert forall|k: int| 0 <= k < ending_after(occupied, time).len() implies exists|j: int|
            0 <= j < occupied.len() && occupied[j] == #[trigger] ending_after(occupied, time)[k] by {
            if k < ending_after(rest, time).len() {
                let j = choose|j: int| 0 <= j < rest.len() && rest[j] == #[trigger] ending_after(rest, time)[k];
                assert(occupied[j] == rest[j]);
            } else {
                assert(occupied[occupied.len() - 1] == ending_after(occupied, time)[k]);
            }
        }
    }
}

/// The vacant intervals from `from` on between the occupied intervals, in
/// order: walking the intervals by start, a hole runs from the cursor up to
/// an interval that starts after it, and the cursor then moves to that
/// interval's finish, or to the finish of one it is inside; the last hole
/// never ends. A cursor at `FOREVER` has nothing ahead.
pub open spec fn holes_from(occupied: Seq<Interval>, from: int) -> Seq<Interval>
    decreases occupied.len(),
{
    if from >= FOREVER {
        Seq::empty()
    } else if occupied.len() == 0 {
        seq![Interval(from as u64, FOREVER)]
    } else {
        let first = occupied[0];
        let rest = occupied.drop_first();
        if from < first.0 {
            seq![Interval(from as u64, first.0)] + holes_from(rest, first.1 as int)
        } else if from < first.1 {
            holes_from(rest, first.1 as int)
        } else {
            holes_from(rest, from)
        }
    }
}

/// The first of `holes` that is at least `length` long.
pub open spec fn first_fit(holes: Seq<Interval>, length: int) -> Interval
    decreases holes.len(),
{
    if holes.len() == 0 {
        Interval(FOREVER, FOREVER)
    } else if holes[0].0 + length <= holes[0].1 {
        holes[0]
    } else {
        first_fit(holes.drop_first(), length)
    }
}

/// A cursor at `FOREVER` has no holes ahead.
proof fn lemma_holes_forever(occupied: Seq<Interval>)
    ensures
        holes_from(occupied, FOREVER as int) == Seq::<Interval>::empty(),
{
}

/// A structure for keeping track of vacant time intervals.
pub struct Queue {
    capacity: ElementCapacity,
    occupied: Vec<Interval>,
}

impl View for Queue {
    type V = Seq<Interval>;

    /// The occupied intervals, by start.
    closed spec fn view(&self) -> Seq<Interval> {
        self.occupied@
    }
}

impl Queue {
    /// The capacity of the element that the queue serves.
    pub closed spec fn spec_capacity(&self) -> ElementCapacity {
        self.capacity
    }

    /// The invariant: starts strictly increase, and no interval ends
    /// before it starts.
    pub open spec fn wf(&self) -> bool {
        &&& ordered(self@)
        &&& forall|j: int| 0 <= j < self@.len() ==> #[trigger] self@[j].0 <= self@[j].1
    }

    /// Create a queue with nothing occupied.
    pub fn new(capacity: ElementCapacity) -> (r: Queue)
        ensures
            r.wf(),
            r@ == Seq::<Interval>::empty(),
            r.spec_capacity() == capacity,
    {
        Queue { capacity, occupied: Vec::new() }
    }

    /// Return the capacity.
    pub fn capacity(&self) -> (r: ElementCapacity)
        ensures
            r == self.spec_capacity(),
    {
        self.capacity
    }

    /// Return the occupied intervals, by start.
    pub fn occupied(&self) -> (r: &Vec<Interval>)
        ensures
            r@ == self@,
    {
        &self.occupied
    }

    /// Occupy the interval `[start, finish)`.
    ///
    /// A start that is already taken is moved up to the next free one, so
    /// that starts stay unique; the interval becomes empty rather than
    /// reversed when the start passes the finish.
    pub fn push(&mut self, interval: (u64, u64))
        requires
            old(self).wf(),
            interval.0 + old(self)@.len() < FOREVER,
        ensures
            final(self).wf(),
            final(self).spec_capacity() == old(self).spec_capacity(),
            exists|b: int, i: int|
                #[trigger] occupied_at(old(self)@, final(self)@, interval.0 as int, interval.1 as int, b, i),
    {
        let (mut start, finish) = interval;
        let count = self.occupied.len();
        let mut i: usize = 0;
        while i < count && self.occupied[i].0 < start
            invariant
                count == self@.len(),
                0 <= i <= count,
                forall|j: int| 0 <= j < i ==> #[trigger] self@[j].0 < start,
            decreases count - i,
        {
            i += 1;
        }
        let ghost s0 = start as int;
        let ghost i0 = i as int;
        while i < count && self.occupied[i].0 == start
            invariant
                self.wf(),
                count == self@.len(),
                0 <= i0 <= i <= count,
                s0 == interval.0,
                s0 <= start <= s0 + (i - i0),
                s0 + count < FOREVER,
                forall|j: int| 0 <= j < i ==> #[trigger] self@[j].0 < start,
                i < count ==> start <= self@[i as int].0,
                forall|v: int| s0 <= v < start ==> taken(self@, v),
            decreases count - i,
        {
            proof {
                if i + 1 < count {
                    assert(self@[i as int].0 < self@[i + 1].0);
                }
                assert(taken(self@, start as int));
            }
            start += 1;
            i += 1;
        }
        let end = if start < finish { finish } else { start };
        proof {
            assert(!taken(self@, start as int)) by {
                if taken(self@, start as int) {
                    let j = choose|j: int| 0 <= j < self@.len() && self@[j].0 == start;
                    if j >= i {
                        if j > i {
                            assert(self@[i as int].0 < self@[j].0);
                        }
                    }
                }
            }
            assert(moved_start(self@, s0, start as int));
        }
        let ghost before = self@;
        self.occupied.insert(i, Interval(start, end));
        proof {
            assert forall|a: int, c: int| 0 <= a < c < self@.len() implies self@[a].0 < self@[c].0 by {
                if c < i {
                } else if a < i && c == i {
                } else if a < i {
                    assert(before[a].0 < before[c - 1].0 || a == c - 1);
                    if i < count {
                        assert(start < before[i as int].0);
                        assert(before[i as int].0 <= before[c - 1].0 || i == c - 1);
                    }
                } else if a == i {
                    assert(start < before[i as int].0);
                    assert(before[i as int].0 <= before[c - 1].0 || i == c - 1);
                } else {
                    assert(before[a - 1].0 < before[c - 1].0);
                }
            }
            assert(self@ == before.insert(i as int, Interval(start, end)));
            assert(occupied_at(before, self@, s0, finish as int, start as int, i as int));
        }
    }

    /// Advance time: forget every interval that ends at `time` or earlier,
    /// as none can stand in the way of a later search.
    pub fn step(&mut self, time: u64)
        requires
            old(self).wf(),
        ensures
            final(self).wf(),
            final(self).spec_capacity() == old(self).spec_capacity(),
            final(self)@ == ending_after(old(self)@, time as int),
    {
        let count = self.occupied.len();
        let mut kept: Vec<Interval> = Vec::new();
        let mut i: usize = 0;
        while i < count
            invariant
                self.wf(),
                count == self@.len(),
                0 <= i <= count,
                kept@ == ending_after(self@.subrange(0, i as int), time as int),
                ordered(kept@),
                forall|j: int| 0 <= j < kept@.len() ==> #[trigger] kept@[j].0 <= kept@[j].1,
                kept@.len() > 0 ==> i > 0 && kept@.last().0 <= self@[i - 1].0,
            decreases count - i,
        {
            let interval = self.occupied[i];
            proof {
                assert(self@.subrange(0, i + 1).drop_last() =~= self@.subrange(0, i as int));
                if i > 0 {
                    assert(self@[i - 1].0 < self@[i as int].0);
                }
            }
            if interval.1 > time {
                kept.push(interval);
            }
            i += 1;
        }
        proof {
            assert(self@.subrange(0, count as int) =~= self@);
        }
        self.occupied = kept;
    }

    /// List the vacant intervals from `from` on.
    pub fn holes(&self, from: u64) -> (r: Vec<Interval>)
        ensures
            r@ == holes_from(self@, from as int),
    {
        let mut out: Vec<Interval> = Vec::new();
        let mut cursor = from;
        let count = self.occupied.len();
        let mut i: usize = 0;
        proof {
            assert(self@.subrange(0, count as int) =~= self@);
            assert(out@ + holes_from(self@, from as int) =~= holes_from(self@, from as int));
        }
        while i < count
            invariant
                count == self@.len(),
                0 <= i <= count,
                out@ + holes_from(self@.subrange(i as int, count as int), cursor as int) == holes_from(
                    self@,
                    from as int,
                ),
            decreases count - i,
        {
            let ghost rest = self@.subrange(i as int, count as int);
            proof {
                assert(rest.drop_first() =~= self@.subrange(i + 1, count as int));
            }
            if cursor == FOREVER {
                proof {
                    assert(holes_from(rest, cursor as int) == Seq::<Interval>::empty());
                    assert(out@ + Seq::<Interval>::empty() =~= out@);
                    lemma_holes_forever(self@.subrange(i as int, count as int));
                }
                return out;
            }
            let Interval(start, finish) = self.occupied[i];
            if cursor < start {
                let ghost before = out@;
                out.push(Interval(cursor, start));
                proof {
                    assert(out@ =~= before + seq![Interval(cursor, start)]);
                    assert(before + (seq![Interval(cursor, start)] + holes_from(rest.drop_first(), finish as int))
                        =~= out@ + holes_from(rest.drop_first(), finish as int));
                }
                cursor = finish;
            } else if cursor < finish {
                cursor = finish;
            }
            i += 1;
        }
        proof {
            assert(self@.subrange(count as int, count as int) =~= Seq::<Interval>::empty());
        }
        if cursor < FOREVER {
            let ghost before = out@;
            out.push(Interval(cursor, FOREVER));
            proof {
                assert(out@ =~= before + seq![Interval(cursor, FOREVER)]);
            }
        } else {
            proof {
                assert(out@ + Seq::<Interval>::empty() =~= out@);
            }
        }
        out
    }

    /// Find the first vacant interval that begins at `from` or later and is
    /// at least `length` long.
    ///
    /// An element of infinite capacity is always vacant. Otherwise the holes
    /// between the occupied intervals are walked in order of start, and the
    /// first one long enough is returned whole; the last hole never ends.
    pub fn next(&self, from: u64, length: u64) -> (r: Interval)
        requires
            self.wf(),
            0 < length,
            from + length <= FOREVER,
            self.spec_capacity() == ElementCapacity::Single ==> forall|j: int|
                0 <= j < self@.len() ==> #[trigger] self@[j].1 + length <= FOREVER,
        ensures
            self.spec_capacity() == ElementCapacity::Infinite ==> r == Interval(from, FOREVER),
            from <= r.0,
            r.0 + length <= r.1,
            self.spec_capacity() == ElementCapacity::Single ==> r == first_fit(holes_from(self@, from as int), length as int),
            self.spec_capacity() == ElementCapacity::Single ==> vacant(self@, r.0 as int, r.1 as int),
            self.spec_capacity() == ElementCapacity::Single ==> r.1 == FOREVER || taken(self@, r.1 as int),
            self.spec_capacity() == ElementCapacity::Single ==> r.0 == from || exists|j: int|
                0 <= j < self@.len() && #[trigger] self@[j].1 == r.0,
            self.spec_capacity() == ElementCapacity::Single && nonempty(self@) ==> forall|h: int|
                from <= h < r.0 ==> #[trigger] blocked(self@, h, length as int),
    {
        if let ElementCapacity::Infinite = self.capacity {
            return Interval(from, FOREVER);
        }
        let mut cursor = from;
        let mut i: usize = 0;
        let count = self.occupied.len();
        proof {
            assert(self@.subrange(0, count as int) =~= self@);
        }
        while i < count
            invariant
                self.wf(),
                self.capacity == ElementCapacity::Single,
                first_fit(holes_from(self@.subrange(i as int, count as int), cursor as int), length as int) == first_fit(
                    holes_from(self@, from as int),
                    length as int,
                ),
                count == self@.len(),
                0 <= i <= count,
                from <= cursor,
                0 < length,
                from + length <= FOREVER,
                forall|j: int| 0 <= j < self@.len() ==> #[trigger] self@[j].1 + length <= FOREVER,
                cursor + length <= FOREVER,
                forall|j: int| 0 <= j < i ==> #[trigger] self@[j].1 <= cursor,
                cursor == from || exists|j: int| 0 <= j < i && #[trigger] self@[j].1 == cursor,
                nonempty(self@) ==> forall|h: int|
                    from <= h < cursor ==> #[trigger] blocked(self@, h, length as int),
            decreases count - i,
        {
            let Interval(start, finish) = self.occupied[i];
            proof {
                let rest = self@.subrange(i as int, count as int);
                assert(rest.drop_first() =~= self@.subrange(i + 1, count as int));
                assert(rest[0] == Interval(start, finish));
                assert(start <= finish);
                if cursor < start {
                    let tail = holes_from(rest.drop_first(), finish as int);
                    let hs = seq![Interval(cursor, start)] + tail;
                    assert(holes_from(rest, cursor as int) == hs);
                    assert(hs[0] == Interval(cursor, start));
                    assert(hs.drop_first() =~= tail);
                } else if cursor < finish {
                    assert(holes_from(rest, cursor as int) == holes_from(rest.drop_first(), finish as int));
                } else {
                    assert(holes_from(rest, cursor as int) == holes_from(rest.drop_first(), cursor as int));
                }
            }
            if cursor < start {
                if cursor + length <= start {
                    proof {
                        assert forall|j: int| 0 <= j < self@.len() implies !intersect(
                            self@[j].0 as int,
                            self@[j].1 as int,
                            cursor as int,
                            start as int,
                        ) by {
                            if j > i {
                                assert(self@[i as int].0 < self@[j].0);
                            }
                        }
                    }
                    return Interval(cursor, start);
                }
                proof {
                    assert forall|h: int| from <= h < finish && nonempty(self@) implies blocked(
                        self@,
                        h,
                        length as int,
                    ) by {
                        if h >= cursor {
                            assert(intersect(start as int, finish as int, h, h + length));
                        }
                    }
                }
            } else {
                proof {
                    assert forall|h: int| from <= h < finish && nonempty(self@) implies blocked(
                        self@,
                        h,
                        length as int,
                    ) by {
                        if h >= cursor {
                            assert(intersect(start as int, finish as int, h, h + length));
                        }
                    }
                }
            }
            if cursor < finish {
                cursor = finish;
            }
            i += 1;
        }
        proof {
            assert(self@.subrange(count as int, count as int) =~= Seq::<Interval>::empty());
            assert(holes_from(Seq::<Interval>::empty(), cursor as int) == seq![Interval(cursor, FOREVER)]);
        }
        Interval(cursor, FOREVER)
    }
}

} // verus!
