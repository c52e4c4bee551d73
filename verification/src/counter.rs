//! The counter that is fed a stream chunk by chunk, and the two counts of a
//! stream that is held in memory.

use crate::lines::{
    buffered_count, closed_lines, counted_so_far, fitting, lemma_count_bounds, lemma_counted_monotone,
    lemma_occurrences_concat, line_count, occurrences, pending_after, CARRIAGE_RETURN, NEWLINE,
    SPACE, TAB,
};
use vstd::pervasive::unreached;
use vstd::prelude::*;
use vstd::slice::slice_subrange;

verus! {

/// `bytecount::count` returns the number of positions of `haystack` that hold
/// `needle`. It only reads the slice, and returns for every input.
pub assume_specification[ bytecount::count ](haystack: &[u8], needle: u8) -> (n: usize)
    ensures
        n == occurrences(haystack@, needle),
;

/// What one read of the stream brought.
pub enum ReadOutcome {
    /// The read put this many bytes at the front of the buffer; none at the
    /// end of the stream.
    Read(usize),
    /// The read failed.
    Failed,
}

/// What is to be done after a read.
pub enum Progress {
    /// The bytes were counted: read on.
    More,
    /// The stream is done, and this is its count.
    Done(i32),
    /// The count would exceed `i32::MAX`; the counter is as it was.
    Overflow,
}

/// What a [`LineCounter`] stands for: its mode and all bytes it was fed.
pub struct CounterView {
    /// Whether lines without content are skipped.
    pub skip_empty: bool,
    /// The bytes fed so far, in order.
    pub seen: Seq<u8>,
}

/// Counts the lines of a stream that arrives in chunks of any sizes.
pub struct LineCounter {
    skip_empty: bool,
    total: i32,
    has_data: bool,
    seen: Ghost<Seq<u8>>,
}

impl View for LineCounter {
    type V = CounterView;

    closed spec fn view(&self) -> CounterView {
        CounterView { skip_empty: self.skip_empty, seen: self.seen@ }
    }
}

impl LineCounter {
    /// The total is what the bytes seen amount to, and the flag says whether
    /// the open line holds content (in the raw mode it stays unset).
    #[verifier::type_invariant]
    spec fn inv(self) -> bool {
        &&& self.total == counted_so_far(self.skip_empty, self.seen@)
        &&& self.has_data == (self.skip_empty && pending_after(false, self.seen@))
    }

    /// A counter that has seen nothing.
    pub fn new(skip_empty: bool) -> (counter: Self)
        ensures
            counter@ == (CounterView { skip_empty, seen: Seq::empty() }),
    {
        LineCounter { skip_empty, total: 0, has_data: false, seen: Ghost(Seq::empty()) }
    }

    /// Takes the next bytes of the stream, unless the count would exceed
    /// `i32::MAX` with them: then the counter stays as it was, and the result
    /// is `false`.
    pub fn feed(&mut self, chunk: &[u8]) -> (fed: bool)
        ensures
            fed == (counted_so_far(old(self)@.skip_empty, old(self)@.seen + chunk@) <= i32::MAX),
            final(self)@.skip_empty == old(self)@.skip_empty,
            final(self)@.seen == if fed {
                old(self)@.seen + chunk@
            } else {
                old(self)@.seen
            },
    {
        proof {
            use_type_invariant(&*self);
        }
        let ghost before = self.seen@;
        let ghost after = before + chunk@;
        if self.skip_empty {
            let mut total = self.total;
            let mut has_data = self.has_data;
            let mut i: usize = 0;
            while i < chunk.len()
                invariant
                    i <= chunk.len(),
                    *self == *old(self),
                    self@.skip_empty,
                    before == self@.seen,
                    after == before + chunk@,
                    total == closed_lines(false, before + chunk@.take(i as int)),
                    has_data == pending_after(false, before + chunk@.take(i as int)),
                decreases chunk.len() - i,
            {
                let b = chunk[i];
                proof {
                    let prefix = before + chunk@.take(i as int);
                    let longer = before + chunk@.take(i + 1);
                    assert(longer.drop_last() =~= prefix);
                    assert(longer.last() == b);
                    assert(longer + chunk@.skip(i + 1) =~= after);
                    lemma_counted_monotone(true, longer, chunk@.skip(i + 1));
                }
                if b == NEWLINE {
                    if has_data {
                        if total == i32::MAX {
                            return false;
                        }
                        total = total + 1;
                    }
                    has_data = false;
                } else if b == CARRIAGE_RETURN || b == SPACE || b == TAB {
                } else {
                    has_data = true;
                }
                i = i + 1;
            }
            assert(chunk@.take(chunk.len() as int) =~= chunk@);
            *self = LineCounter { skip_empty: true, total, has_data, seen: Ghost(after) };
        } else {
            let found = bytecount::count(chunk, NEWLINE);
            proof {
                lemma_occurrences_concat(before, chunk@, NEWLINE);
            }
            if found > (i32::MAX - self.total) as usize {
                return false;
            }
            let total = self.total + found as i32;
            *self = LineCounter { skip_empty: false, total, has_data: false, seen: Ghost(after) };
        }
        true
    }

    /// What has been counted so far. This is what stands when a read fails:
    /// a line that is still open is not counted.
    pub fn counted(&self) -> (n: i32)
        ensures
            n == counted_so_far(self@.skip_empty, self@.seen),
    {
        proof {
            use_type_invariant(self);
        }
        self.total
    }

    /// The count of the stream if it ends here: a last line that no newline
    /// ends is counted where lines without content are skipped and it holds
    /// content. `None` where the count exceeds `i32::MAX`.
    pub fn finish(&self) -> (count: Option<i32>)
        ensures
            match count {
                Some(n) => n == line_count(self@.skip_empty, self@.seen),
                None => line_count(self@.skip_empty, self@.seen) > i32::MAX,
            },
    {
        proof {
            use_type_invariant(self);
        }
        if !self.has_data {
            Some(self.total)
        } else if self.total < i32::MAX {
            Some(self.total + 1)
        } else {
            None
        }
    }

    /// Takes the outcome of one read into `buffer` and says what is to be
    /// done next. Bytes go to [`LineCounter::feed`], and the caller reads on.
    /// The end of the stream gives [`LineCounter::finish`]. A failed read
    /// gives what was counted before it.
    pub fn on_read(&mut self, buffer: &[u8], outcome: ReadOutcome) -> (next: Progress)
        requires
            outcome matches ReadOutcome::Read(n) ==> n <= buffer.len(),
        ensures
            final(self)@.skip_empty == old(self)@.skip_empty,
            final(self)@.seen == if next is More {
                old(self)@.seen + buffer@.take(outcome->Read_0 as int)
            } else {
                old(self)@.seen
            },
            counted_so_far(old(self)@.skip_empty, old(self)@.seen) <= i32::MAX,
            next == step(old(self)@, buffer@, outcome),
    {
        proof {
            use_type_invariant(&*self);
        }
        match outcome {
            ReadOutcome::Read(n) => {
                if n == 0 {
                    match self.finish() {
                        Some(count) => Progress::Done(count),
                        None => Progress::Overflow,
                    }
                } else if self.feed(slice_subrange(buffer, 0, n)) {
                    Progress::More
                } else {
                    Progress::Overflow
                }
            },
            ReadOutcome::Failed => Progress::Done(self.counted()),
        }
    }
}

/// What is to be done after a read with this outcome, for a counter that
/// stands for `counter`.
pub open spec fn step(counter: CounterView, buffer: Seq<u8>, outcome: ReadOutcome) -> Progress {
    match outcome {
        ReadOutcome::Read(n) => if n == 0 {
            if line_count(counter.skip_empty, counter.seen) <= i32::MAX {
                Progress::Done(line_count(counter.skip_empty, counter.seen) as i32)
            } else {
                Progress::Overflow
            }
        } else {
            if counted_so_far(counter.skip_empty, counter.seen + buffer.take(n as int))
                <= i32::MAX {
                Progress::More
            } else {
                Progress::Overflow
            }
        },
        ReadOutcome::Failed => Progress::Done(
            counted_so_far(counter.skip_empty, counter.seen) as i32,
        ),
    }
}

/// What a counter that stands for `counter` reports when each of `chunks`
/// comes from one read, in order, and the end of the stream after the last.
pub open spec fn run(counter: CounterView, chunks: Seq<Seq<u8>>) -> Progress
    decreases chunks.len(),
{
    if chunks.len() == 0 {
        step(counter, Seq::empty(), ReadOutcome::Read(0))
    } else {
        let chunk = chunks.first();
        match step(counter, chunk, ReadOutcome::Read(chunk.len() as usize)) {
            Progress::More => run(
                CounterView { seen: counter.seen + chunk, ..counter },
                chunks.drop_first(),
            ),
            ended => ended,
        }
    }
}

/// How a stream is cut into chunks does not matter: whatever the sizes of
/// the reads, the stream is counted to its end, and the count is that of the
/// bytes of all chunks in a row.
pub proof fn lemma_chunking_irrelevant(counter: CounterView, chunks: Seq<Seq<u8>>)
    requires
        forall|i: int| 0 <= i < chunks.len() ==> 0 < (#[trigger] chunks[i]).len() <= usize::MAX,
        line_count(counter.skip_empty, counter.seen + chunks.flatten()) <= i32::MAX,
    ensures
        run(counter, chunks) == Progress::Done(
            line_count(counter.skip_empty, counter.seen + chunks.flatten()) as i32,
        ),
    decreases chunks.len(),
{
    if chunks.len() == 0 {
        assert(counter.seen + chunks.flatten() =~= counter.seen);
    } else {
        let chunk = chunks.first();
        let rest = chunks.drop_first();
        let next = CounterView { seen: counter.seen + chunk, ..counter };
        assert(chunk.take(chunk.len() as int) =~= chunk);
        assert(next.seen + rest.flatten() =~= counter.seen + chunks.flatten());
        lemma_counted_monotone(counter.skip_empty, next.seen, rest.flatten());
        lemma_count_bounds(counter.skip_empty, next.seen + rest.flatten());
        lemma_chunking_irrelevant(next, rest);
    }
}

/// The count of `data` in either mode, read through a buffer of
/// `buffer_size` bytes: `data` goes to a [`LineCounter`] in pieces of that
/// size, and the end of the stream after the last. The result is `None` where
/// the count is more than `i32::MAX`.
pub fn count_lines(data: &[u8], buffer_size: usize, skip_empty: bool) -> (count: Option<i32>)
    ensures
        count == fitting(buffered_count(skip_empty, data@, buffer_size)),
{
    let mut counter = LineCounter::new(skip_empty);
    let mut pos: usize = 0;
    assert(data@.take(0) =~= Seq::<u8>::empty());
    loop
        invariant
            pos <= data.len(),
            buffer_size == 0 ==> pos == 0,
            counter@ == (CounterView { skip_empty, seen: data@.take(pos as int) }),
        decreases data.len() - pos,
    {
        let left = data.len() - pos;
        let n = if left < buffer_size {
            left
        } else {
            buffer_size
        };
        let chunk = slice_subrange(data, pos, pos + n);
        proof {
            let seen = data@.take(pos as int);
            assert(chunk@.take(n as int) =~= chunk@);
            assert(seen + chunk@ =~= data@.take(pos + n));
            assert(data@.take(pos + n) + data@.skip(pos + n) =~= data@);
            if n == 0 {
                assert(buffer_size == 0 || seen =~= data@);
            } else {
                lemma_counted_monotone(skip_empty, data@.take(pos + n), data@.skip(pos + n));
                lemma_count_bounds(skip_empty, data@);
            }
        }
        match counter.on_read(chunk, ReadOutcome::Read(n)) {
            Progress::Done(total) => {
                return Some(total);
            },
            Progress::More => {
                pos = pos + n;
            },
            Progress::Overflow => {
                return None;
            },
        }
    }
}

/// The raw count of `data`, read through a buffer of `buffer_size` bytes: the
/// number of its newline bytes. A last line that no newline ends is not
/// counted.
pub fn count_newlines_fast(data: &[u8], buffer_size: usize) -> (n: i32)
    requires
        buffered_count(false, data@, buffer_size) <= i32::MAX,
    ensures
        n == buffered_count(false, data@, buffer_size),
{
    match count_lines(data, buffer_size, false) {
        Some(n) => n,
        None => unreached(),
    }
}

/// The count of lines with content of `data`, read through a buffer of
/// `buffer_size` bytes. A last line that no newline ends is counted if it
/// holds content.
pub fn count_nonempty_lines(data: &[u8], buffer_size: usize) -> (n: i32)
    requires
        buffered_count(true, data@, buffer_size) <= i32::MAX,
    ensures
        n == buffered_count(true, data@, buffer_size),
{
    match count_lines(data, buffer_size, true) {
        Some(n) => n,
        None => unreached(),
    }
}

} // verus!
