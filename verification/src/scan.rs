//! Scanning a byte range of a file that arrives block by block.

use vstd::prelude::*;

use crate::bytes;
use crate::bytes::{NEWLINE, SEMICOLON};
use crate::lines;
use crate::lines::MAX_LINE;
use crate::model;
use crate::model::{Reading, Stats};
use crate::table::Table;

verus! {

/// Bytes to read at a time, far fewer than a chunk, so that the read that
/// completes the last line of a chunk stays cheap.
pub const BLK: usize = 0x20_0000;

/// Why a scan stops before its end.
#[derive(Clone, Copy, PartialEq, Eq, Structural, Debug)]
pub enum Fault {
    /// A line has no `;`, or no temperature after it, or does not end.
    Malformed,
    /// The table cannot take the reading of a line.
    NoRoom,
}

/// Where a scan stands: the bytes that have come but not been read, the
/// offset of the first of them, the offset where the range ends, and whether
/// the end of the file has been seen.
pub struct ScanState {
    pub pending: Seq<u8>,
    pub base: int,
    pub end: int,
    pub ended: bool,
}

impl ScanState {
    /// Whether there is nothing left to read.
    pub open spec fn done(self) -> bool {
        self.ended || self.base >= self.end
    }
}

/// How far lines were read: the summaries, the bytes left, their offset, and
/// the fault of the line at which reading stopped, if it did.
pub struct Progress {
    pub summaries: Map<Seq<u8>, Stats>,
    pub rest: Seq<u8>,
    pub base: int,
    pub fault: Option<Fault>,
}

/// The reading at the start of `data` and the bytes that it takes, if it can
/// be read. With the look-ahead at hand a line is read by its `;` and its
/// point; at the end of a file it is read by its newline.
pub open spec fn next_line(data: Seq<u8>, ahead: bool) -> Option<(Reading, int)> {
    if ahead {
        lines::fast_line(data)
    } else if lines::line_readable(lines::first_line(data)) {
        Some((lines::line_reading(lines::first_line(data)), lines::first_line_len(data)))
    } else {
        None
    }
}

/// What is wrong with the line at the start of `data`, at offset `base`. A
/// line may take more than `data` only where it is the last in range.
pub open spec fn line_fault(
    m: Map<Seq<u8>, Stats>,
    data: Seq<u8>,
    base: int,
    end: int,
    ahead: bool,
) -> Option<Fault> {
    match next_line(data, ahead) {
        None => Some(Fault::Malformed),
        Some((r, n)) => if n > data.len() && base + n < end {
            Some(Fault::Malformed)
        } else if !model::fits(model::absorb(m, r)) {
            Some(Fault::NoRoom)
        } else {
            None
        },
    }
}

/// `data` without its first `n` bytes, or without all of them.
pub open spec fn past(data: Seq<u8>, n: int) -> Seq<u8> {
    if n <= data.len() {
        data.skip(n)
    } else {
        Seq::empty()
    }
}

/// Reads the lines of `data`, the first of which is at offset `base`, that
/// start before `end`; with `ahead`, only while `MAX_LINE` bytes are at hand.
pub open spec fn read_lines(
    m: Map<Seq<u8>, Stats>,
    data: Seq<u8>,
    base: int,
    end: int,
    ahead: bool,
) -> Progress
    decreases data.len(),
{
    if base >= end || data.len() == 0 || ahead && data.len() < MAX_LINE {
        Progress { summaries: m, rest: data, base, fault: None }
    } else {
        match line_fault(m, data, base, end, ahead) {
            Some(f) => Progress { summaries: m, rest: data, base, fault: Some(f) },
            None => {
                let (r, n) = next_line(data, ahead).unwrap();
                proof {
                    lemma_next_line(data, ahead);
                }
                read_lines(model::absorb(m, r), past(data, n), base + n, end, ahead)
            },
        }
    }
}

/// Every line takes at least one byte, and not many past the end.
pub proof fn lemma_next_line(data: Seq<u8>, ahead: bool)
    ensures
        match next_line(data, ahead) {
            Some((r, n)) => 0 <= n <= data.len() + 6 && (data.len() > 0 ==> n >= 1),
            None => true,
        },
{
    lines::lemma_first_line_len(data);
    bytes::lemma_find(data, SEMICOLON);
}

/// What a block adds. An empty block is the end of the file.
pub open spec fn feed_lines(
    st: ScanState,
    m: Map<Seq<u8>, Stats>,
    block: Seq<u8>,
) -> Progress {
    if st.done() {
        Progress { summaries: m, rest: st.pending, base: st.base, fault: None }
    } else {
        read_lines(m, st.pending + block, st.base, st.end, block.len() > 0)
    }
}

/// Where a scan stands after a block.
pub open spec fn feed_state(
    st: ScanState,
    m: Map<Seq<u8>, Stats>,
    block: Seq<u8>,
) -> ScanState {
    let p = feed_lines(st, m, block);
    ScanState {
        pending: p.rest,
        base: p.base,
        end: st.end,
        ended: st.ended || (!st.done() && block.len() == 0),
    }
}

/// A scan of the lines that start in a byte range of a file. Blocks of the
/// file are fed in order from the start of the range, which is the start of a
/// line. The buffer is kept from one range to the next.
pub struct Scanner {
    buf: Vec<u8>,
    p: usize,
    base: u64,
    end: u64,
    ended: bool,
}

impl View for Scanner {
    type V = ScanState;

    closed spec fn view(&self) -> ScanState {
        ScanState {
            pending: self.buf@.skip(self.p as int),
            base: self.base as int,
            end: self.end as int,
            ended: self.ended,
        }
    }
}

impl Scanner {
    pub closed spec fn wf(self) -> bool {
        &&& self.p <= self.buf@.len()
        &&& self.base + self.buf@.len() - self.p <= u64::MAX
    }

    /// The offset up to which the file has come.
    pub proof fn lemma_wf(self)
        requires
            self.wf(),
        ensures
            0 <= self@.base,
            self@.base + self@.pending.len() <= u64::MAX,
    {
    }

    /// A scanner with nothing to read.
    pub fn new() -> (s: Scanner)
        ensures
            s.wf(),
            s@ == (ScanState { pending: Seq::empty(), base: 0, end: 0, ended: false }),
    {
        let s = Scanner {
            buf: Vec::with_capacity(BLK + MAX_LINE),
            p: 0,
            base: 0,
            end: 0,
            ended: false,
        };
        assert(s@.pending =~= Seq::empty());
        s
    }

    /// Sets out to read the lines that start in `[begin, end)`.
    pub fn begin(&mut self, begin: u64, end: u64)
        ensures
            final(self).wf(),
            final(self)@ == (ScanState {
                pending: Seq::empty(),
                base: begin as int,
                end: end as int,
                ended: false,
            }),
    {
        self.buf.clear();
        self.p = 0;
        self.base = begin;
        self.end = end;
        self.ended = false;
        assert(self@.pending =~= Seq::empty());
    }

    /// The offset of the next byte of the file to feed, or nothing if the
    /// range has been read.
    pub fn wants(&self) -> (r: Option<u64>)
        requires
            self.wf(),
        ensures
            r == if self@.done() {
                None::<u64>
            } else {
                Some((self@.base + self@.pending.len()) as u64)
            },
    {
        if self.ended || self.base >= self.end {
            None
        } else {
            Some(self.base + (self.buf.len() - self.p) as u64)
        }
    }

    /// Moves what was not read to the front of the buffer and puts `block`
    /// behind it.
    fn refill(&mut self, block: &[u8])
        requires
            old(self).wf(),
        ensures
            final(self).p == 0,
            final(self).buf@ == old(self)@.pending + block@,
            final(self).base == old(self).base,
            final(self).end == old(self).end,
            final(self).ended == old(self).ended,
    {
        let ghost before = self.buf@;
        let p = self.p;
        let left = self.buf.len() - p;
        if p > 0 {
            let mut k: usize = 0;
            while k < left
                invariant
                    p == self.p,
                    p > 0,
                    k <= left,
                    left + p == self.buf.len(),
                    self.buf@.len() == before.len(),
                    self.base == old(self).base,
                    self.end == old(self).end,
                    self.ended == old(self).ended,
                    forall|i: int| 0 <= i < k ==> self.buf@[i] == before[p + i],
                    forall|i: int| k <= i < before.len() ==> self.buf@[i] == before[i],
                decreases left - k,
            {
                let b = self.buf[p + k];
                self.buf[k] = b;
                k += 1;
            }
            self.buf.truncate(left);
            self.p = 0;
        }
        assert(self.buf@ =~= before.skip(p as int));
        bytes::append(&mut self.buf, block);
    }

    /// Takes the next block of the file, an empty one at its end, and reads
    /// what can be read.
    pub fn feed(&mut self, block: &[u8], table: &mut Table) -> (r: Result<(), Fault>)
        requires
            old(self).wf(),
            old(table).wf(),
            old(self)@.base + old(self)@.pending.len() + block@.len() + MAX_LINE <= u64::MAX,
        ensures
            final(self).wf(),
            final(table).wf(),
            final(table).keeps_names(*old(table)),
            final(self)@ == feed_state(old(self)@, old(table)@, block@),
            final(table)@ == feed_lines(old(self)@, old(table)@, block@).summaries,
            r == match feed_lines(old(self)@, old(table)@, block@).fault {
                Some(f) => Err::<(), Fault>(f),
                None => Ok::<(), Fault>(()),
            },
    {
        if self.ended || self.base >= self.end {
            return Ok(());
        }
        self.refill(block);
        assert(self.buf@.skip(0) =~= self.buf@);
        if block.len() > 0 {
            self.read_ahead(table)
        } else {
            self.ended = true;
            self.read_tail(table)
        }
    }

    /// Reads one line ahead.
    #[inline]
    fn read_one(&mut self, table: &mut Table) -> (r: Result<(), Fault>)
        requires
            old(self).wf(),
            old(table).wf(),
            old(self)@.base + old(self)@.pending.len() + MAX_LINE <= u64::MAX,
        ensures
            final(self).wf(),
            final(table).wf(),
            final(table).keeps_names(*old(table)),
            final(self).end == old(self).end,
            final(self).ended == old(self).ended,
            ({
                let st = old(self)@;
                match line_fault(old(table)@, st.pending, st.base, st.end, true) {
                    Some(f) => {
                        &&& r == Err::<(), Fault>(f)
                        &&& final(self)@ == st
                        &&& final(table)@ == old(table)@
                    },
                    None => {
                        let (reading, n) = next_line(st.pending, true).unwrap();
                        &&& r == Ok::<(), Fault>(())
                        &&& final(self)@.pending == past(st.pending, n)
                        &&& final(self)@.base == st.base + n
                        &&& final(table)@ == model::absorb(old(table)@, reading)
                    },
                }
            }),
    {
        let ghost data = self@.pending;
        let p = self.p;
        let len = self.buf.len();
        proof {
            lemma_next_line(data, true);
        }
        let (end, h, val, adv) = match lines::take_line(self.buf.as_slice(), p) {
            Some(x) => x,
            None => {
                return Err(Fault::Malformed);
            },
        };
        let base = self.base + (end - p) as u64 + 1 + adv as u64;
        let whole = adv <= len - end - 1;
        if !whole && base < self.end {
            return Err(Fault::Malformed);
        }
        if !table.try_record(&self.buf[p..end], h, val) {
            return Err(Fault::NoRoom);
        }
        self.base = base;
        self.p = if whole {
            end + 1 + adv
        } else {
            len
        };
        assert(self@.pending =~= past(data, end - p + 1 + adv));
        Ok(())
    }

    /// Reads lines while `MAX_LINE` bytes of look-ahead are at hand, so that
    /// the newline of a proper line is among them.
    fn read_ahead(&mut self, table: &mut Table) -> (r: Result<(), Fault>)
        requires
            old(self).wf(),
            old(table).wf(),
            old(self)@.base + old(self)@.pending.len() + MAX_LINE <= u64::MAX,
        ensures
            final(self).wf(),
            final(table).wf(),
            final(table).keeps_names(*old(table)),
            ({
                let st = old(self)@;
                let p = read_lines(old(table)@, st.pending, st.base, st.end, true);
                &&& final(self)@ == (ScanState { pending: p.rest, base: p.base, ..st })
                &&& final(table)@ == p.summaries
                &&& r == match p.fault {
                    Some(f) => Err::<(), Fault>(f),
                    None => Ok::<(), Fault>(()),
                }
            }),
    {
        let ghost goal = read_lines(table@, self@.pending, self@.base, self@.end, true);
        while self.base < self.end && self.buf.len() - self.p >= MAX_LINE
            invariant
                self.wf(),
                table.wf(),
                table.keeps_names(*old(table)),
                self.base < self.end ==> self@.base + self@.pending.len() + MAX_LINE <= u64::MAX,
                self.end == old(self).end,
                self.ended == old(self).ended,
                goal == read_lines(
                    old(table)@,
                    old(self)@.pending,
                    old(self)@.base,
                    old(self)@.end,
                    true,
                ),
                goal == read_lines(table@, self@.pending, self@.base, self@.end, true),
            decreases self@.pending.len(),
        {
            proof {
                lemma_next_line(self@.pending, true);
            }
            match self.read_one(table) {
                Ok(()) => {},
                Err(f) => {
                    return Err(f);
                },
            }
        }
        Ok(())
    }

    /// Reads the lines at the end of a file, the last of which may lack its
    /// newline.
    fn read_tail(&mut self, table: &mut Table) -> (r: Result<(), Fault>)
        requires
            old(self).wf(),
            old(table).wf(),
        ensures
            final(self).wf(),
            final(table).wf(),
            final(table).keeps_names(*old(table)),
            ({
                let st = old(self)@;
                let p = read_lines(old(table)@, st.pending, st.base, st.end, false);
                &&& final(self)@ == (ScanState { pending: p.rest, base: p.base, ..st })
                &&& final(table)@ == p.summaries
                &&& r == match p.fault {
                    Some(f) => Err::<(), Fault>(f),
                    None => Ok::<(), Fault>(()),
                }
            }),
    {
        let ghost goal = read_lines(table@, self@.pending, self@.base, self@.end, false);
        while self.base < self.end && self.p < self.buf.len()
            invariant
                self.wf(),
                table.wf(),
                table.keeps_names(*old(table)),
                self.end == old(self).end,
                self.ended == old(self).ended,
                goal == read_lines(
                    old(table)@,
                    old(self)@.pending,
                    old(self)@.base,
                    old(self)@.end,
                    false,
                ),
                goal == read_lines(table@, self@.pending, self@.base, self@.end, false),
            decreases self.buf@.len() - self.p,
        {
            let ghost data = self@.pending;
            let ghost line = lines::first_line(data);
            let p = self.p;
            let tail = &self.buf[p..self.buf.len()];
            assert(tail@ =~= data);
            let n = bytes::position(tail, NEWLINE);
            let text = &tail[0..n];
            proof {
                lines::lemma_first_line_len(data);
                assert(text@ =~= line);
            }
            if !lines::check_readable(text) {
                return Err(Fault::Malformed);
            }
            if !lines::process_line_slow(text, table) {
                return Err(Fault::NoRoom);
            }
            let len: usize = if n < tail.len() {
                n + 1
            } else {
                n
            };
            self.base = self.base + len as u64;
            self.p = p + len;
            proof {
                assert(self@.pending =~= past(data, lines::first_line_len(data)));
            }
        }
        Ok(())
    }
}

/// Law: with the look-ahead at hand, one line is read by its `;` and its point;
/// reading stops at a line that has none, or that is cut off before the end of
/// the range, or that does not fit, and otherwise goes on behind it.
pub proof fn law_read_ahead(m: Map<Seq<u8>, Stats>, data: Seq<u8>, base: int, end: int)
    ensures
        ({
            let p = read_lines(m, data, base, end, true);
            let stay = p.summaries == m && p.rest == data && p.base == base;
            &&& base >= end || data.len() < 128 ==> stay && p.fault is None
            &&& base < end && data.len() >= 128 ==> match lines::fast_line(data) {
                None => stay && p.fault == Some(Fault::Malformed),
                Some((r, n)) => {
                    let cut = n > data.len();
                    let more = if cut {
                        Seq::empty()
                    } else {
                        data.skip(n)
                    };
                    &&& cut && base + n < end ==> stay && p.fault == Some(Fault::Malformed)
                    &&& (!cut || base + n >= end) && !model::fits(model::absorb(m, r)) ==> stay
                        && p.fault == Some(Fault::NoRoom)
                    &&& (!cut || base + n >= end) && model::fits(model::absorb(m, r)) ==> p
                        == read_lines(model::absorb(m, r), more, base + n, end, true)
                },
            }
        }),
{
}

/// Law: at the end of a file one line is read up to its newline, or to the end;
/// reading stops at a line that cannot be read or does not fit, and otherwise
/// goes on behind it.
pub proof fn law_read_tail(
    m: Map<Seq<u8>, Stats>,
    line: Seq<u8>,
    rest: Seq<u8>,
    newline: bool,
    base: int,
    end: int,
)
    requires
        forall|i: int| 0 <= i < line.len() ==> line[i] != 0x0A,
        newline || (line.len() > 0 && rest.len() == 0),
    ensures
        ({
            let data = if newline {
                line + seq![0x0Au8] + rest
            } else {
                line
            };
            let p = read_lines(m, data, base, end, false);
            let r = lines::line_reading(line);
            let stay = p.summaries == m && p.rest == data && p.base == base;
            &&& base >= end ==> stay && p.fault is None
            &&& base < end && !lines::line_readable(line) ==> stay && p.fault == Some(
                Fault::Malformed,
            )
            &&& base < end && lines::line_readable(line) && !model::fits(model::absorb(m, r))
                ==> stay && p.fault == Some(Fault::NoRoom)
            &&& base < end && lines::line_readable(line) && model::fits(model::absorb(m, r)) ==> p
                == read_lines(
                model::absorb(m, r),
                rest,
                base + data.len() - rest.len(),
                end,
                false,
            )
            &&& read_lines(m, Seq::empty(), base, end, false) == (Progress {
                summaries: m,
                rest: Seq::empty(),
                base,
                fault: None,
            })
        }),
{
    let data = if newline {
        line + seq![0x0Au8] + rest
    } else {
        line
    };
    let n = line.len() as int;
    assert forall|i: int| 0 <= i < n implies data[i] != NEWLINE by {
        assert(data[i] == line[i]);
    }
    if newline {
        assert(data[n] == NEWLINE);
    }
    bytes::lemma_find_is(data, NEWLINE, n);
    assert(lines::first_line(data) =~= line);
    assert(past(data, lines::first_line_len(data)) =~= rest);
}

/// What is left is the end of what there was, at its own offset.
proof fn lemma_read_lines(
    m: Map<Seq<u8>, Stats>,
    data: Seq<u8>,
    base: int,
    end: int,
    ahead: bool,
)
    ensures
        ({
            let p = read_lines(m, data, base, end, ahead);
            &&& p.rest.len() <= data.len()
            &&& p.rest == data.skip(data.len() - p.rest.len())
            &&& base <= p.base
            &&& p.base < end || p.base == base ==> p.base + p.rest.len() == base + data.len()
            &&& base + data.len() <= p.base + p.rest.len() <= base + data.len() + 6
            &&& p.fault is Some ==> p.base < end
            &&& p.fault is None ==> p.base >= end || p.rest.len() == 0 || (ahead && p.rest.len()
                < 128)
        }),
    decreases data.len(),
{
    let p = read_lines(m, data, base, end, ahead);
    if base >= end || data.len() == 0 || ahead && data.len() < MAX_LINE {
        assert(p.rest =~= data.skip(0));
    } else if line_fault(m, data, base, end, ahead) is Some {
        assert(p.rest =~= data.skip(0));
    } else {
        let (r, n) = next_line(data, ahead).unwrap();
        lemma_next_line(data, ahead);
        let more = past(data, n);
        lemma_read_lines(model::absorb(m, r), more, base + n, end, ahead);
        assert(p.rest =~= data.skip(data.len() - p.rest.len()));
    }
}

/// Law: a scan goes on where it was. While it is not done, the offset that it
/// asks for next is the one that it asked for before plus the bytes that came;
/// what it keeps is the end of the bytes that it had and got; its range ends
/// where it ended; it is over at the end of the file and not before, unless it
/// got past the end of its range; and nothing comes of a block after that.
pub proof fn law_feed_goes_on(st: ScanState, m: Map<Seq<u8>, Stats>, block: Seq<u8>)
    ensures
        ({
            let over = st.ended || st.base >= st.end;
            let next = feed_state(st, m, block);
            let p = feed_lines(st, m, block);
            let had = st.pending + block;
            &&& st.done() <==> over
            &&& next.end == st.end
            &&& over ==> next == st && p.summaries == m && p.fault is None
            &&& !over ==> {
                &&& next.ended <==> block.len() == 0
                &&& next.base >= st.base
                &&& next.pending.len() <= had.len()
                &&& next.pending == had.skip(had.len() - next.pending.len())
                &&& next.base < next.end ==> next.base + next.pending.len() == st.base
                    + st.pending.len() + block.len()
                &&& p.fault is Some ==> next.base < next.end
                &&& p.fault is None && next.base < next.end ==> if block.len() == 0 {
                    next.pending.len() == 0
                } else {
                    next.pending.len() < 128
                }
                &&& p == read_lines(m, had, st.base, st.end, block.len() > 0)
                &&& next.base == p.base && next.pending == p.rest
            }
        }),
{
    if !st.done() {
        lemma_read_lines(m, st.pending + block, st.base, st.end, block.len() > 0);
    }
}

} // verus!
