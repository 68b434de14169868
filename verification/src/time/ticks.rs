//! How the statistics of a time axis read its ticks.
//!
//! Every statistic is a scan of the differences between consecutive ticks. A
//! [`TickSource`] hands the ticks out in bounded chunks, and as many times as
//! a statistic needs, so that an axis of any length is scanned in constant
//! memory.

use vstd::prelude::*;
use crate::error::Result;

verus! {

/// The largest number of ticks a [`TickSource`] hands out at once: one
/// mebibyte of them.
pub const TICK_CHUNK_LEN: usize = 65536;

/// A time axis whose ticks can be read in bounded chunks, over and over, with
/// the same ticks coming back every time.
pub trait TickSource {
    /// The ticks of the axis. A source outside verified code need not tell.
    closed spec fn ticks(&self) -> Seq<i128> {
        arbitrary()
    }

    /// Reading a chunk may fail, as it does when the ticks are on disk. A
    /// source outside verified code need not tell.
    closed spec fn may_fail(&self) -> bool {
        arbitrary()
    }

    /// How many ticks there are.
    fn tick_count(&self) -> (count: usize)
        ensures
            count == self.ticks().len(),
    ;

    /// The ticks from `start` on: at least one, at most [`TICK_CHUNK_LEN`].
    fn tick_chunk(&self, start: usize) -> (chunk: Result<Vec<i128>>)
        requires
            start < self.ticks().len(),
        ensures
            chunk matches Ok(ticks) ==> {
                &&& 0 < ticks@.len() <= TICK_CHUNK_LEN
                &&& start + ticks@.len() <= self.ticks().len()
                &&& ticks@ == self.ticks().subrange(start as int, start + ticks@.len())
            },
            chunk is Err ==> self.may_fail(),
    ;
}

impl TickSource for [i128] {
    open spec fn ticks(&self) -> Seq<i128> {
        self@
    }

    open spec fn may_fail(&self) -> bool {
        false
    }

    fn tick_count(&self) -> (count: usize) {
        self.len()
    }

    fn tick_chunk(&self, start: usize) -> (chunk: Result<Vec<i128>>) {
        let available: usize = self.len() - start;
        let count: usize = if available < TICK_CHUNK_LEN {
            available
        } else {
            TICK_CHUNK_LEN
        };
        let mut ticks: Vec<i128> = Vec::new();
        let mut i: usize = 0;
        while i < count
            invariant
                start < self@.len(),
                0 < count <= TICK_CHUNK_LEN,
                start + count <= self@.len(),
                i <= count,
                ticks@ == self@.subrange(start as int, start + i),
            decreases count - i,
        {
            ticks.push(self[start + i]);
            i = i + 1;
        }
        Ok(ticks)
    }
}

/// The differences between consecutive ticks.
pub open spec fn deltas(ticks: Seq<i128>) -> Seq<int> {
    Seq::new(
        if ticks.len() == 0 {
            0
        } else {
            (ticks.len() - 1) as nat
        },
        |i: int| ticks[i + 1] - ticks[i],
    )
}

/// Every difference between consecutive ticks is itself a tick count.
pub open spec fn deltas_fit(ticks: Seq<i128>) -> bool {
    forall|i: int|
        0 <= i < ticks.len() - 1 ==> i128::MIN <= #[trigger] ticks[i + 1] - ticks[i] <= i128::MAX
}

/// Reads the ticks `next..end` of a source one after the other, a chunk at a
/// time.
pub struct TickCursor<'a, S: TickSource + ?Sized> {
    source: &'a S,
    next: usize,
    end: usize,
    chunk: Vec<i128>,
    chunk_start: usize,
}

impl<'a, S: TickSource + ?Sized> TickCursor<'a, S> {
    /// The ticks that are still to come.
    pub closed spec fn rest(&self) -> Seq<i128> {
        self.source.ticks().subrange(self.next as int, self.end as int)
    }

    /// Reading on may fail.
    pub closed spec fn may_fail(&self) -> bool {
        self.source.may_fail()
    }

    pub closed spec fn wf(&self) -> bool {
        &&& self.next <= self.end <= self.source.ticks().len()
        &&& self.chunk_start <= self.next
        &&& self.chunk_start + self.chunk@.len() <= self.source.ticks().len()
        &&& self.chunk@ == self.source.ticks().subrange(
            self.chunk_start as int,
            self.chunk_start + self.chunk@.len(),
        )
    }

    /// A cursor over the ticks `start..end`, both clamped to the source.
    pub fn new(source: &'a S, start: usize, end: usize) -> (cursor: Self)
        ensures
            cursor.wf(),
            cursor.may_fail() == source.may_fail(),
            cursor.rest() == clamped(source.ticks(), start as int, end as int),
    {
        let count: usize = source.tick_count();
        let stop: usize = if end < count {
            end
        } else {
            count
        };
        let first: usize = if start < stop {
            start
        } else {
            stop
        };
        assert(Seq::<i128>::empty() == source.ticks().subrange(first as int, first as int));
        TickCursor { source, next: first, end: stop, chunk: Vec::new(), chunk_start: first }
    }

    /// The next tick, or `None` behind the last one.
    pub fn next_tick(&mut self) -> (tick: Result<Option<i128>>)
        requires
            old(self).wf(),
        ensures
            final(self).wf(),
            final(self).may_fail() == old(self).may_fail(),
            tick is Err ==> old(self).may_fail() && final(self).rest() == old(self).rest(),
            tick matches Ok(None) ==> old(self).rest().len() == 0 && final(self).rest() == old(
                self,
            ).rest(),
            tick matches Ok(Some(t)) ==> old(self).rest().len() > 0 && t == old(self).rest()[0]
                && final(self).rest() == old(self).rest().skip(1),
    {
        if self.next >= self.end {
            return Ok(None);
        }
        if self.next - self.chunk_start >= self.chunk.len() {
            match self.source.tick_chunk(self.next) {
                Ok(chunk) => {
                    self.chunk = chunk;
                    self.chunk_start = self.next;
                },
                Err(error) => {
                    return Err(error);
                },
            }
        }
        let tick: i128 = self.chunk[self.next - self.chunk_start];
        self.next = self.next + 1;
        assert(self.rest() == old(self).rest().skip(1));
        Ok(Some(tick))
    }
}

/// The part of `ticks` in `start..end`, whatever reaches past the end left out.
pub open spec fn clamped(ticks: Seq<i128>, start: int, end: int) -> Seq<i128> {
    let stop = if end < ticks.len() {
        end
    } else {
        ticks.len() as int
    };
    if start < stop {
        ticks.subrange(start, stop)
    } else {
        Seq::empty()
    }
}

/// How many differences the ticks in `start..end` of an axis of `tick_count`
/// ticks have.
pub fn delta_count(start: usize, end: usize, tick_count: usize) -> (count: usize)
    ensures
        forall|ticks: Seq<i128>|
            ticks.len() == tick_count ==> count == #[trigger] deltas(
                clamped(ticks, start as int, end as int),
            ).len(),
{
    let stop: usize = if end < tick_count {
        end
    } else {
        tick_count
    };
    if start < stop {
        stop - start - 1
    } else {
        0
    }
}

/// Reads the differences between the ticks of a range one after the other,
/// across the borders of the chunks the ticks come in.
pub struct DeltaCursor<'a, S: TickSource + ?Sized> {
    cursor: TickCursor<'a, S>,
    previous: Option<i128>,
}

impl<'a, S: TickSource + ?Sized> DeltaCursor<'a, S> {
    /// The differences that are still to come.
    pub closed spec fn rest(&self) -> Seq<int> {
        match self.previous {
            Some(previous) => deltas(seq![previous] + self.cursor.rest()),
            None => Seq::empty(),
        }
    }

    /// Reading on may fail.
    pub closed spec fn may_fail(&self) -> bool {
        self.cursor.may_fail()
    }

    pub closed spec fn wf(&self) -> bool {
        &&& self.cursor.wf()
        &&& self.previous matches Some(previous) ==> deltas_fit(
            seq![previous] + self.cursor.rest(),
        )
    }

    /// A cursor over the differences of the ticks `start..end`, both clamped
    /// to the source.
    pub fn new(source: &'a S, start: usize, end: usize) -> (cursor: Result<Self>)
        requires
            deltas_fit(source.ticks()),
        ensures
            cursor matches Ok(c) ==> {
                &&& c.wf()
                &&& c.may_fail() == source.may_fail()
                &&& c.rest() == deltas(clamped(source.ticks(), start as int, end as int))
            },
            cursor is Err ==> source.may_fail(),
    {
        let mut cursor: TickCursor<'a, S> = TickCursor::new(source, start, end);
        let ghost range: Seq<i128> = cursor.rest();
        proof {
            assert forall|i: int| 0 <= i < range.len() - 1 implies i128::MIN <= #[trigger] range[i
                + 1] - range[i] <= i128::MAX by {
                let at = start + i;
                assert(i128::MIN <= source.ticks()[at + 1] - source.ticks()[at] <= i128::MAX);
            }
        }
        match cursor.next_tick() {
            Ok(previous) => {
                proof {
                    if previous is Some {
                        assert(seq![previous->0] + cursor.rest() == range);
                    } else {
                        assert(deltas(range) == Seq::<int>::empty());
                    }
                }
                Ok(DeltaCursor { cursor, previous })
            },
            Err(error) => Err(error),
        }
    }

    /// The next difference, or `None` behind the last one.
    pub fn next_delta(&mut self) -> (delta: Result<Option<i128>>)
        requires
            old(self).wf(),
        ensures
            final(self).wf(),
            final(self).may_fail() == old(self).may_fail(),
            delta is Err ==> old(self).may_fail(),
            delta matches Ok(None) ==> old(self).rest().len() == 0 && final(self).rest() == old(
                self,
            ).rest(),
            delta matches Ok(Some(d)) ==> old(self).rest().len() > 0 && d == old(self).rest()[0]
                && final(self).rest() == old(self).rest().skip(1),
    {
        let previous: i128 = match self.previous {
            Some(previous) => previous,
            None => {
                return Ok(None);
            },
        };
        let ghost before: Seq<i128> = seq![previous] + self.cursor.rest();
        match self.cursor.next_tick() {
            Ok(Some(tick)) => {
                assert(before[0] == previous && before[0int + 1] == tick);
                let delta: i128 = tick - previous;
                self.previous = Some(tick);
                proof {
                    let after = seq![tick] + self.cursor.rest();
                    assert(after == before.skip(1));
                    assert forall|i: int| 0 <= i < after.len() - 1 implies i128::MIN
                        <= #[trigger] after[i + 1] - after[i] <= i128::MAX by {
                        assert(i128::MIN <= before[(i + 1) + 1] - before[i + 1] <= i128::MAX);
                    }
                    assert(deltas(after) == deltas(before).skip(1));
                }
                Ok(Some(delta))
            },
            Ok(None) => Ok(None),
            Err(error) => Err(error),
        }
    }
}

/// A range of ticks that reaches beyond the last one ends there.
pub proof fn law_ranges_end_with_the_ticks(ticks: Seq<i128>, start: int, end: int, i: int)
    requires
        0 <= start <= end,
    ensures
        start <= i < end && i < ticks.len() ==> i - start < clamped(ticks, start, end).len()
            && clamped(ticks, start, end)[i - start] == ticks[i],
        clamped(ticks, start, end).len() <= end - start,
        clamped(ticks, start, end).len() > 0 ==> start + clamped(ticks, start, end).len()
            <= ticks.len(),
{
}

} // verus!
