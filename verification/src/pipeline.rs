//! What the parts amount to together: any way of cutting a file into chunks,
//! of handing the chunks to threads and of reading a chunk block by block
//! gives the summary of the file.

use vstd::prelude::*;

use crate::bytes;
use crate::bytes::NEWLINE;
use crate::chunks;
use crate::lines;
use crate::lines::MAX_LINE;
use crate::model;
use crate::model::{Reading, Stats};
use crate::scan;
use crate::scan::{Fault, ScanState};
use crate::table::Table;

verus! {

/// The readings of the lines of `data` that start before `limit`.
pub open spec fn readings_before(data: Seq<u8>, limit: int) -> Seq<Reading> {
    lines::readings(lines::lines(data, limit))
}

/// Whether the lines of `data` that start before `limit` are all proper.
pub open spec fn proper(data: Seq<u8>, limit: int) -> bool {
    forall|i: int|
        0 <= i < lines::lines(data, limit).len() ==> lines::is_line(
            #[trigger] lines::lines(data, limit)[i],
        )
}

/// Feeds blocks one after the other until one has a fault.
pub open spec fn feed_all(
    st: ScanState,
    m: Map<Seq<u8>, Stats>,
    blocks: Seq<Seq<u8>>,
) -> (ScanState, Map<Seq<u8>, Stats>, Option<Fault>)
    decreases blocks.len(),
{
    if blocks.len() == 0 {
        (st, m, None)
    } else {
        let p = scan::feed_lines(st, m, blocks[0]);
        let next = scan::feed_state(st, m, blocks[0]);
        match p.fault {
            Some(f) => (next, p.summaries, Some(f)),
            None => feed_all(next, p.summaries, blocks.drop_first()),
        }
    }
}

/// What is to come of `m` and the lines of `data` that start in range.
spec fn whole(m: Map<Seq<u8>, Stats>, data: Seq<u8>, base: int, end: int) -> Map<Seq<u8>, Stats> {
    model::join(m, model::summarize(readings_before(data, end - base)))
}

/// The first line may be taken first.
proof fn lemma_whole_step(m: Map<Seq<u8>, Stats>, data: Seq<u8>, base: int, end: int)
    requires
        data.len() > 0,
        base < end,
        proper(data, end - base),
    ensures
        ({
            let line = lines::first_line(data);
            let n = lines::first_line_len(data);
            &&& 1 <= n <= data.len()
            &&& lines::is_line(line)
            &&& whole(m, data, base, end) == whole(
                model::absorb(m, lines::line_reading(line)),
                data.skip(n),
                base + n,
                end,
            )
            &&& proper(data.skip(n), end - (base + n))
        }),
{
    let line = lines::first_line(data);
    let n = lines::first_line_len(data);
    lines::lemma_first_line_len(data);
    let rest = lines::lines(data.skip(n), end - base - n);
    let all = lines::lines(data, end - base);
    assert(all == seq![line] + rest);
    assert(all[0] == line);
    assert forall|i: int| 0 <= i < rest.len() implies lines::is_line(#[trigger] rest[i]) by {
        assert(all[i + 1] == rest[i]);
    }
    assert(lines::readings(all) =~= seq![lines::line_reading(line)] + lines::readings(rest));
    model::lemma_summarize_first(m, lines::line_reading(line), lines::readings(rest));
}

/// The readings of proper lines are in range.
proof fn lemma_proper_coherent(data: Seq<u8>, limit: int)
    requires
        proper(data, limit),
    ensures
        model::all_coherent(model::summarize(readings_before(data, limit))),
{
    let ls = lines::lines(data, limit);
    let rs = lines::readings(ls);
    assert forall|i: int| 0 <= i < rs.len() implies model::in_range(#[trigger] rs[i]) by {
        lines::lemma_is_line(ls[i]);
    }
    model::lemma_summarize_coherent(rs);
}

/// Where all lines in range are proper and fit, the first has no fault, with
/// look-ahead if its newline is at hand.
proof fn lemma_no_fault(m: Map<Seq<u8>, Stats>, data: Seq<u8>, base: int, end: int, ahead: bool)
    requires
        data.len() > 0,
        base < end,
        model::all_coherent(m),
        proper(data, end - base),
        model::fits(whole(m, data, base, end)),
        ahead ==> bytes::find(data, NEWLINE) < data.len(),
    ensures
        scan::line_fault(m, data, base, end, ahead) is None,
        scan::next_line(data, ahead) == Some(
            (lines::line_reading(lines::first_line(data)), lines::first_line_len(data)),
        ),
        model::all_coherent(model::absorb(m, lines::line_reading(lines::first_line(data)))),
{
    let line = lines::first_line(data);
    let r = lines::line_reading(line);
    let n = lines::first_line_len(data);
    lemma_whole_step(m, data, base, end);
    lines::lemma_is_line(line);
    if ahead {
        lines::lemma_fast_line(data);
    }
    model::lemma_single_coherent(r);
    model::lemma_join_coherent(m, model::single(r.name, Stats::of(r.tenths)));
    lemma_proper_coherent(data.skip(n), end - (base + n));
    model::lemma_fits_left(
        model::absorb(m, r),
        model::summarize(readings_before(data.skip(n), end - (base + n))),
    );
}

/// Reading ahead neither stops at a proper line nor loses one.
proof fn lemma_read_ahead(
    m: Map<Seq<u8>, Stats>,
    data: Seq<u8>,
    more: Seq<u8>,
    base: int,
    end: int,
)
    requires
        model::all_coherent(m),
        proper(data + more, end - base),
        model::fits(whole(m, data + more, base, end)),
    ensures
        ({
            let p = scan::read_lines(m, data, base, end, true);
            &&& p.fault is None
            &&& model::all_coherent(p.summaries)
            &&& proper(p.rest + more, end - p.base)
            &&& whole(p.summaries, p.rest + more, p.base, end) == whole(m, data + more, base, end)
        }),
    decreases data.len(),
{
    if !(base >= end || data.len() < MAX_LINE) {
        let all = data + more;
        let line = lines::first_line(all);
        let n = lines::first_line_len(all);
        lemma_whole_step(m, all, base, end);
        lines::lemma_is_line(line);
        bytes::lemma_find(all, NEWLINE);
        let k = bytes::find(all, NEWLINE);
        lemma_no_fault(m, all, base, end, true);
        assert(line.len() == k);
        assert forall|i: int| 0 <= i < k implies data[i] != NEWLINE by {
            assert(all[i] == data[i]);
        }
        assert(all[k] == data[k]);
        bytes::lemma_find_is(data, NEWLINE, k);
        assert(lines::first_line(data) =~= line);
        lines::lemma_fast_line(data);
        assert(scan::line_fault(m, data, base, end, true) is None);
        assert(all.skip(n) =~= data.skip(n) + more);
        lemma_read_ahead(
            model::absorb(m, lines::line_reading(line)),
            data.skip(n),
            more,
            base + n,
            end,
        );
    }
}

/// At the end of the file every proper line in range is read.
proof fn lemma_read_tail(m: Map<Seq<u8>, Stats>, data: Seq<u8>, base: int, end: int)
    requires
        model::all_coherent(m),
        proper(data, end - base),
        model::fits(whole(m, data, base, end)),
    ensures
        ({
            let p = scan::read_lines(m, data, base, end, false);
            &&& p.fault is None
            &&& p.summaries == whole(m, data, base, end)
        }),
    decreases data.len(),
{
    if base >= end || data.len() == 0 {
        assert(readings_before(data, end - base) =~= Seq::empty());
        model::law_join_empty(m);
    } else {
        let n = lines::first_line_len(data);
        lemma_whole_step(m, data, base, end);
        lemma_no_fault(m, data, base, end, false);
        lemma_read_tail(
            model::absorb(m, lines::line_reading(lines::first_line(data))),
            data.skip(n),
            base + n,
            end,
        );
    }
}

/// Nothing comes of blocks after the end.
proof fn lemma_feed_done(st: ScanState, m: Map<Seq<u8>, Stats>, blocks: Seq<Seq<u8>>)
    requires
        st.done(),
    ensures
        feed_all(st, m, blocks) == (st, m, None::<Fault>),
    decreases blocks.len(),
{
    if blocks.len() > 0 {
        lemma_feed_done(st, m, blocks.drop_first());
    }
}

proof fn lemma_feed_all(st: ScanState, m: Map<Seq<u8>, Stats>, blocks: Seq<Seq<u8>>)
    requires
        !st.ended,
        model::all_coherent(m),
        forall|i: int| 0 <= i < blocks.len() ==> #[trigger] blocks[i].len() > 0,
        proper(st.pending + blocks.flatten(), st.end - st.base),
        model::fits(whole(m, st.pending + blocks.flatten(), st.base, st.end)),
    ensures
        ({
            let r = feed_all(st, m, blocks.push(Seq::empty()));
            &&& r.0.done()
            &&& r.1 == whole(m, st.pending + blocks.flatten(), st.base, st.end)
            &&& r.2 is None
        }),
    decreases blocks.len(),
{
    let data = st.pending + blocks.flatten();
    let fed = blocks.push(Seq::empty());
    if st.done() {
        lemma_feed_done(st, m, fed);
        assert(readings_before(data, st.end - st.base) =~= Seq::empty());
        model::law_join_empty(m);
    } else if blocks.len() == 0 {
        assert(fed[0] == Seq::<u8>::empty());
        assert(st.pending + fed[0] =~= data);
        lemma_read_tail(m, data, st.base, st.end);
        let next = scan::feed_state(st, m, fed[0]);
        let p = scan::feed_lines(st, m, fed[0]);
        lemma_feed_done(next, p.summaries, fed.drop_first());
    } else {
        let rest = blocks.drop_first();
        assert(fed[0] == blocks[0]);
        assert(fed.drop_first() =~= rest.push(Seq::empty()));
        assert(data =~= (st.pending + blocks[0]) + rest.flatten());
        lemma_read_ahead(m, st.pending + blocks[0], rest.flatten(), st.base, st.end);
        let next = scan::feed_state(st, m, fed[0]);
        let p = scan::feed_lines(st, m, fed[0]);
        assert forall|i: int| 0 <= i < rest.len() implies #[trigger] rest[i].len() > 0 by {
            assert(rest[i] == blocks[i + 1]);
        }
        lemma_feed_all(next, p.summaries, rest);
    }
}

/// Law: however a file is cut into blocks, feeding them and then the end of
/// the file adds the readings of exactly those lines that start in the range,
/// provided that they are proper and fit.
pub proof fn law_scan_is_exact(
    m: Map<Seq<u8>, Stats>,
    blocks: Seq<Seq<u8>>,
    begin: int,
    end: int,
)
    requires
        model::all_coherent(m),
        forall|i: int| 0 <= i < blocks.len() ==> #[trigger] blocks[i].len() > 0,
        proper(blocks.flatten(), end - begin),
        model::fits(
            model::join(m, model::summarize(readings_before(blocks.flatten(), end - begin))),
        ),
    ensures
        ({
            let st = ScanState { pending: Seq::empty(), base: begin, end, ended: false };
            let r = feed_all(st, m, blocks.push(Seq::empty()));
            &&& r.0.done()
            &&& r.1 == model::join(
                m,
                model::summarize(readings_before(blocks.flatten(), end - begin)),
            )
            &&& r.2 is None
        }),
{
    let st = ScanState { pending: Seq::empty(), base: begin, end, ended: false };
    assert(st.pending + blocks.flatten() =~= blocks.flatten());
    lemma_feed_all(st, m, blocks);
}

/// The readings of the parts that `t` owns, in order.
pub open spec fn share(parts: Seq<Seq<Reading>>, owner: Seq<int>, t: int) -> Seq<Reading>
    decreases parts.len(),
{
    if parts.len() == 0 {
        Seq::empty()
    } else {
        share(parts.drop_last(), owner.drop_last(), t) + if owner.last() == t {
            parts.last()
        } else {
            Seq::empty()
        }
    }
}

/// Summaries folded together one after the other.
pub open spec fn join_all(ms: Seq<Map<Seq<u8>, Stats>>) -> Map<Seq<u8>, Stats>
    decreases ms.len(),
{
    if ms.len() == 0 {
        Map::empty()
    } else {
        model::join(join_all(ms.drop_last()), ms.last())
    }
}

/// Adding to one of the summaries adds to all of them together.
proof fn lemma_join_all_update(
    ms: Seq<Map<Seq<u8>, Stats>>,
    t: int,
    x: Map<Seq<u8>, Stats>,
)
    requires
        0 <= t < ms.len(),
    ensures
        join_all(ms.update(t, model::join(ms[t], x))) == model::join(join_all(ms), x),
    decreases ms.len(),
{
    let new = ms.update(t, model::join(ms[t], x));
    let front = join_all(ms.drop_last());
    if t == ms.len() - 1 {
        assert(new.drop_last() =~= ms.drop_last());
        model::law_join_associates(front, ms.last(), x);
    } else {
        assert(new.drop_last() =~= ms.drop_last().update(t, model::join(ms.drop_last()[t], x)));
        assert(new.last() == ms.last());
        lemma_join_all_update(ms.drop_last(), t, x);
        model::law_join_associates(front, x, ms.last());
        model::law_join_commutes(x, ms.last());
        model::law_join_associates(front, ms.last(), x);
    }
}

proof fn lemma_join_all_empty(ms: Seq<Map<Seq<u8>, Stats>>)
    requires
        forall|t: int| 0 <= t < ms.len() ==> #[trigger] ms[t] == Map::<Seq<u8>, Stats>::empty(),
    ensures
        join_all(ms) == Map::<Seq<u8>, Stats>::empty(),
    decreases ms.len(),
{
    if ms.len() > 0 {
        lemma_join_all_empty(ms.drop_last());
        model::law_join_empty(Map::empty());
    }
}

/// Law: it does not matter which thread takes which part. The summaries of the
/// threads, folded together, are the summary of all parts.
pub proof fn law_any_assignment(parts: Seq<Seq<Reading>>, owner: Seq<int>, threads: nat)
    requires
        owner.len() == parts.len(),
        forall|i: int| 0 <= i < owner.len() ==> 0 <= #[trigger] owner[i] < threads,
    ensures
        join_all(Seq::new(threads, |t: int| model::summarize(share(parts, owner, t))))
            == model::summarize(parts.flatten()),
    decreases parts.len(),
{
    let ms = Seq::new(threads, |t: int| model::summarize(share(parts, owner, t)));
    if parts.len() == 0 {
        assert(parts.flatten() =~= Seq::empty());
        lemma_join_all_empty(ms);
    } else {
        let (front, last) = (parts.drop_last(), parts.last());
        let w = owner.last();
        let before = Seq::new(
            threads,
            |t: int| model::summarize(share(front, owner.drop_last(), t)),
        );
        let x = model::summarize(last);
        assert forall|i: int| 0 <= i < owner.drop_last().len() implies 0
            <= #[trigger] owner.drop_last()[i] < threads by {
            assert(owner.drop_last()[i] == owner[i]);
        }
        law_any_assignment(front, owner.drop_last(), threads);
        assert(owner[owner.len() - 1] == w);
        assert(ms =~= before.update(w, model::join(before[w], x))) by {
            assert forall|t: int| 0 <= t < threads implies #[trigger] ms[t] == before.update(
                w,
                model::join(before[w], x),
            )[t] by {
                let had = share(front, owner.drop_last(), t);
                if t == w {
                    model::law_summarize_concat(had, last);
                } else {
                    assert(had + Seq::<Reading>::empty() =~= had);
                }
            }
        }
        lemma_join_all_update(before, w, x);
        assert(parts =~= front.push(last));
        front.lemma_flatten_push(last);
        model::law_summarize_concat(front.flatten(), last);
    }
}

/// The readings of chunk `i` of a file.
pub open spec fn chunk_readings(file: Seq<u8>, i: int) -> Seq<Reading> {
    lines::readings(chunks::chunk_lines(file, i))
}

/// The readings of lists of lines are the lists of their readings.
proof fn lemma_readings_flatten(parts: Seq<Seq<Seq<u8>>>)
    ensures
        lines::readings(parts.flatten()) == parts.map_values(
            |ls: Seq<Seq<u8>>| lines::readings(ls),
        ).flatten(),
    decreases parts.len(),
{
    let f = |ls: Seq<Seq<u8>>| lines::readings(ls);
    let mapped = parts.map_values(f);
    if parts.len() == 0 {
        assert(lines::readings(parts.flatten()) =~= mapped.flatten());
    } else {
        let (front, last) = (parts.drop_last(), parts.last());
        lemma_readings_flatten(front);
        assert(parts =~= front.push(last));
        front.lemma_flatten_push(last);
        assert(mapped =~= front.map_values(f).push(f(last)));
        front.map_values(f).lemma_flatten_push(f(last));
        assert(lines::readings(front.flatten() + last) =~= lines::readings(front.flatten())
            + lines::readings(last));
    }
}

/// Law: the summary of a file comes out whichever thread takes which chunk.
pub proof fn law_file_summary(file: Seq<u8>, owner: Seq<int>, threads: nat)
    requires
        owner.len() == chunks::chunks(file.len() as int),
        forall|i: int| 0 <= i < owner.len() ==> 0 <= #[trigger] owner[i] < threads,
    ensures
        ({
            let parts = Seq::new(owner.len(), |i: int| chunk_readings(file, i));
            join_all(Seq::new(threads, |t: int| model::summarize(share(parts, owner, t))))
                == model::summarize(readings_before(file, file.len() as int))
        }),
{
    let parts = Seq::new(owner.len(), |i: int| chunk_readings(file, i));
    let texts = Seq::new(owner.len(), |i: int| chunks::chunk_lines(file, i));
    law_any_assignment(parts, owner, threads);
    chunks::law_last_bound(file);
    lemma_readings_flatten(texts);
    assert(parts =~= texts.map_values(|ls: Seq<Seq<u8>>| lines::readings(ls)));
}

/// Whether `blocks` are the file from offset `off` on, cut anywhere.
#[verifier::opaque]
pub open spec fn cut_of(blocks: Seq<Seq<u8>>, file: Seq<u8>, off: int) -> bool {
    &&& blocks.flatten() == file.skip(off)
    &&& forall|i: int| 0 <= i < blocks.len() ==> #[trigger] blocks[i].len() > 0
}

/// A scan of chunk `i` into a table that holds `m`.
pub open spec fn scan_chunk(
    m: Map<Seq<u8>, Stats>,
    file: Seq<u8>,
    i: int,
    blocks: Seq<Seq<u8>>,
) -> (ScanState, Map<Seq<u8>, Stats>, Option<Fault>) {
    feed_all(
        ScanState {
            pending: Seq::empty(),
            base: chunks::bound(file, i),
            end: chunks::bound(file, i + 1),
            ended: false,
        },
        m,
        blocks.push(Seq::empty()),
    )
}

/// The tables of all threads once the first `k` chunks have been scanned, each
/// by its owner, or nothing if a scan had a fault.
pub open spec fn tables_after(
    file: Seq<u8>,
    owner: Seq<int>,
    cuts: Seq<Seq<Seq<u8>>>,
    threads: nat,
    k: nat,
) -> Option<Seq<Map<Seq<u8>, Stats>>>
    decreases k,
{
    if k == 0 {
        Some(Seq::new(threads, |t: int| Map::empty()))
    } else {
        match tables_after(file, owner, cuts, threads, (k - 1) as nat) {
            None => None,
            Some(before) => {
                let w = owner[k - 1];
                let r = scan_chunk(before[w], file, k - 1, cuts[k - 1]);
                if r.2 is None {
                    Some(before.update(w, r.1))
                } else {
                    None
                }
            },
        }
    }
}

/// Where all summaries fit together, each of them fits, and so do the first
/// few of them together.
proof fn lemma_fits_each(ms: Seq<Map<Seq<u8>, Stats>>)
    requires
        forall|t: int| 0 <= t < ms.len() ==> model::all_coherent(#[trigger] ms[t]),
        model::fits(join_all(ms)),
    ensures
        model::all_coherent(join_all(ms)),
        forall|t: int| 0 <= t < ms.len() ==> model::fits(#[trigger] ms[t]),
        forall|j: int| 0 <= j <= ms.len() ==> model::fits(join_all(#[trigger] ms.take(j))),
    decreases ms.len(),
{
    if ms.len() == 0 {
        assert forall|j: int| 0 <= j <= ms.len() implies model::fits(
            join_all(#[trigger] ms.take(j)),
        ) by {
            assert(ms.take(j) =~= ms);
        }
    } else {
        let front = ms.drop_last();
        assert forall|t: int| 0 <= t < front.len() implies model::all_coherent(
            #[trigger] front[t],
        ) by {
            assert(front[t] == ms[t]);
        }
        lemma_join_all_coherent(front);
        model::lemma_join_coherent(join_all(front), ms.last());
        model::lemma_fits_left(join_all(front), ms.last());
        model::law_join_commutes(join_all(front), ms.last());
        model::lemma_fits_left(ms.last(), join_all(front));
        lemma_fits_each(front);
        assert forall|t: int| 0 <= t < ms.len() implies model::fits(#[trigger] ms[t]) by {
            if t < front.len() {
                assert(front[t] == ms[t]);
            }
        }
        assert forall|j: int| 0 <= j <= ms.len() implies model::fits(
            join_all(#[trigger] ms.take(j)),
        ) by {
            if j == ms.len() {
                assert(ms.take(j) =~= ms);
            } else {
                assert(ms.take(j) =~= front.take(j));
            }
        }
    }
}

proof fn lemma_join_all_coherent(ms: Seq<Map<Seq<u8>, Stats>>)
    requires
        forall|t: int| 0 <= t < ms.len() ==> model::all_coherent(#[trigger] ms[t]),
    ensures
        model::all_coherent(join_all(ms)),
    decreases ms.len(),
{
    if ms.len() > 0 {
        let front = ms.drop_last();
        assert forall|t: int| 0 <= t < front.len() implies model::all_coherent(
            #[trigger] front[t],
        ) by {
            assert(front[t] == ms[t]);
        }
        lemma_join_all_coherent(front);
        model::lemma_join_coherent(join_all(front), ms.last());
    }
}

/// Lines before a bound of a proper file are proper, and so are the lines from
/// one bound to another.
proof fn lemma_proper_part(file: Seq<u8>, i: int)
    requires
        proper(file, file.len() as int),
        0 <= i,
    ensures
        proper(file, chunks::bound(file, i)),
        proper(
            file.skip(chunks::bound(file, i)),
            chunks::bound(file, i + 1) - chunks::bound(file, i),
        ),
        lines::lines(file, chunks::bound(file, i + 1)) == lines::lines(file, chunks::bound(file, i))
            + chunks::chunk_lines(file, i),
        model::summarize(readings_before(file, file.len() as int)) == model::join(
            model::summarize(readings_before(file, chunks::bound(file, i + 1))),
            model::summarize(
                readings_before(
                    file.skip(chunks::bound(file, i + 1)),
                    file.len() - chunks::bound(file, i + 1),
                ),
            ),
        ),
        proper(
            file.skip(chunks::bound(file, i + 1)),
            file.len() - chunks::bound(file, i + 1),
        ),
{
    let (a, b) = (chunks::bound(file, i), chunks::bound(file, i + 1));
    chunks::lemma_line_start(file, i * chunks::CHUNK);
    chunks::lemma_line_start(file, (i + 1) * chunks::CHUNK);
    assert(i * chunks::CHUNK <= (i + 1) * chunks::CHUNK);
    assert(chunks::is_bound(file, a) && chunks::is_bound(file, b) && a <= b);
    chunks::lemma_split(file, a, b);
    chunks::lemma_split(file, b, file.len() as int);
    let all = lines::lines(file, file.len() as int);
    let first = lines::lines(file, a);
    let mid = chunks::chunk_lines(file, i);
    let last = lines::lines(file.skip(b), file.len() - b);
    assert(all == (first + mid) + last);
    assert forall|j: int| 0 <= j < first.len() implies lines::is_line(#[trigger] first[j]) by {
        assert(all[j] == first[j]);
    }
    assert forall|j: int| 0 <= j < mid.len() implies lines::is_line(#[trigger] mid[j]) by {
        assert(all[first.len() + j] == mid[j]);
    }
    assert forall|j: int| 0 <= j < last.len() implies lines::is_line(#[trigger] last[j]) by {
        assert(all[first.len() + mid.len() + j] == last[j]);
    }
    assert(lines::readings(all) =~= lines::readings(first + mid) + lines::readings(last));
    model::law_summarize_concat(lines::readings(first + mid), lines::readings(last));
}

/// One more chunk: there is room for its readings, and with them the tables
/// hold those of all chunks so far.
proof fn lemma_chunk_room(
    file: Seq<u8>,
    before: Seq<Map<Seq<u8>, Stats>>,
    w: int,
    i: int,
)
    requires
        proper(file, file.len() as int),
        model::fits(model::summarize(readings_before(file, file.len() as int))),
        0 <= i,
        0 <= w < before.len(),
        join_all(before) == model::summarize(readings_before(file, chunks::bound(file, i))),
        forall|t: int| 0 <= t < before.len() ==> model::all_coherent(#[trigger] before[t]),
    ensures
        ({
            let x = model::join(before[w], model::summarize(chunk_readings(file, i)));
            let ts = before.update(w, x);
            &&& proper(
                file.skip(chunks::bound(file, i)),
                chunks::bound(file, i + 1) - chunks::bound(file, i),
            )
            &&& model::fits(x)
            &&& join_all(ts) == model::summarize(
                readings_before(file, chunks::bound(file, i + 1)),
            )
            &&& forall|t: int| 0 <= t < ts.len() ==> model::all_coherent(#[trigger] ts[t])
            &&& model::fits(join_all(ts))
        }),
{
    lemma_proper_part(file, i);
    let (a, b) = (chunks::bound(file, i), chunks::bound(file, i + 1));
    let x = model::summarize(chunk_readings(file, i));
    let later = model::summarize(readings_before(file.skip(b), file.len() - b));
    lemma_proper_coherent(file.skip(a), b - a);
    lemma_proper_coherent(file.skip(b), file.len() - b);
    // What has been scanned so far and what is scanned now.
    let added = before.update(w, model::join(before[w], x));
    assert(join_all(added) == model::summarize(readings_before(file, b))) by {
        lemma_join_all_update(before, w, x);
        assert(lines::readings(lines::lines(file, b)) =~= lines::readings(lines::lines(file, a))
            + chunk_readings(file, i));
        model::law_summarize_concat(
            lines::readings(lines::lines(file, a)),
            chunk_readings(file, i),
        );
    }
    // All of it fits, since the whole file does.
    model::lemma_join_coherent(before[w], x);
    assert forall|t: int| 0 <= t < added.len() implies model::all_coherent(
        #[trigger] added[t],
    ) by {
        if t != w {
            assert(added[t] == before[t]);
        }
    }
    lemma_join_all_coherent(added);
    model::lemma_fits_left(join_all(added), later);
    assert(model::fits(model::join(before[w], x))) by {
        lemma_fits_each(added);
        assert(added[w] == model::join(before[w], x));
    }
}

/// One more chunk: its scan has no fault, and the tables hold its readings
/// too.
proof fn lemma_run_step(
    file: Seq<u8>,
    before: Seq<Map<Seq<u8>, Stats>>,
    w: int,
    i: int,
    blocks: Seq<Seq<u8>>,
)
    requires
        proper(file, file.len() as int),
        model::fits(model::summarize(readings_before(file, file.len() as int))),
        0 <= i,
        0 <= w < before.len(),
        join_all(before) == model::summarize(readings_before(file, chunks::bound(file, i))),
        forall|t: int| 0 <= t < before.len() ==> model::all_coherent(#[trigger] before[t]),
        cut_of(blocks, file, chunks::bound(file, i)),
    ensures
        ({
            let r = scan_chunk(before[w], file, i, blocks);
            let ts = before.update(w, r.1);
            &&& r.2 is None
            &&& join_all(ts) == model::summarize(
                readings_before(file, chunks::bound(file, i + 1)),
            )
            &&& forall|t: int| 0 <= t < ts.len() ==> model::all_coherent(#[trigger] ts[t])
            &&& model::fits(join_all(ts))
        }),
{
    reveal(cut_of);
    lemma_chunk_room(file, before, w, i);
    law_scan_is_exact(before[w], blocks, chunks::bound(file, i), chunks::bound(file, i + 1));
}

/// What holds of the tables once the lines before `limit` have been scanned:
/// each of them fits, all of them fit together, and together they hold the
/// readings of those lines.
pub open spec fn hold_readings(
    ts: Seq<Map<Seq<u8>, Stats>>,
    file: Seq<u8>,
    limit: int,
) -> bool {
    &&& join_all(ts) == model::summarize(readings_before(file, limit))
    &&& model::fits(join_all(ts))
    &&& forall|t: int|
        0 <= t < ts.len() ==> model::all_coherent(#[trigger] ts[t]) && model::fits(ts[t])
}

/// Law: whichever thread scans which chunk, and however the file arrives in
/// blocks, a file of proper lines whose summary fits is scanned without a
/// fault, the tables of the threads fit together, and merged they hold the
/// readings of the chunks scanned.
pub proof fn law_run(
    file: Seq<u8>,
    owner: Seq<int>,
    cuts: Seq<Seq<Seq<u8>>>,
    threads: nat,
    k: nat,
)
    requires
        proper(file, file.len() as int),
        model::fits(model::summarize(readings_before(file, file.len() as int))),
        k <= owner.len(),
        owner.len() == cuts.len(),
        forall|i: int| 0 <= i < owner.len() ==> 0 <= #[trigger] owner[i] < threads,
        forall|i: int|
            0 <= i < cuts.len() ==> cut_of(#[trigger] cuts[i], file, chunks::bound(file, i)),
    ensures
        match tables_after(file, owner, cuts, threads, k) {
            Some(ts) => ts.len() == threads && hold_readings(
                ts,
                file,
                chunks::bound(file, k as int),
            ),
            None => false,
        },
    decreases k,
{
    if k == 0 {
        let ts = tables_after(file, owner, cuts, threads, 0).unwrap();
        lemma_join_all_empty(ts);
        assert(readings_before(file, 0) =~= Seq::empty());
        assert(Map::<Seq<u8>, Stats>::empty().dom() =~= Set::empty());
        lemma_fits_each(ts);
    } else {
        let i = k - 1;
        law_run(file, owner, cuts, threads, i as nat);
        let before = tables_after(file, owner, cuts, threads, i as nat).unwrap();
        assert(cut_of(cuts[i], file, chunks::bound(file, i)));
        let w = owner[i];
        lemma_run_step(file, before, w, i, cuts[i]);
        let ts = before.update(w, scan_chunk(before[w], file, i, cuts[i]).1);
        lemma_fits_each(ts);
        assert(tables_after(file, owner, cuts, threads, k) == Some(ts));
    }
}

/// Law: from any input of up to `u32::MAX` valid readings of up to `CAP`
/// stations, with or without a newline at the end, the merged tables hold
/// these readings, whichever thread scans which chunk and however the file
/// arrives in blocks.
pub proof fn law_valid_input(
    rs: Seq<Reading>,
    file: Seq<u8>,
    owner: Seq<int>,
    cuts: Seq<Seq<Seq<u8>>>,
    threads: nat,
)
    requires
        forall|i: int| 0 <= i < rs.len() ==> lines::valid(#[trigger] rs[i]),
        rs.len() <= u32::MAX,
        rs.map_values(|r: Reading| r.name).to_set().len() <= model::CAP,
        file == lines::file_text(rs) || (rs.len() > 0 && file == lines::file_text(rs).drop_last()),
        owner.len() == chunks::chunks(file.len() as int),
        owner.len() == cuts.len(),
        forall|i: int| 0 <= i < owner.len() ==> 0 <= #[trigger] owner[i] < threads,
        forall|i: int|
            0 <= i < cuts.len() ==> cut_of(#[trigger] cuts[i], file, chunks::bound(file, i)),
    ensures
        match tables_after(file, owner, cuts, threads, owner.len()) {
            Some(ts) => {
                &&& ts.len() == threads
                &&& join_all(ts) == model::summarize(rs)
                &&& model::fits(join_all(ts))
            },
            None => false,
        },
{
    let ls = lines::lines(file, file.len() as int);
    lines::law_lines_of_file(rs);
    assert(ls == rs.map_values(|r: Reading| lines::line_text(r)));
    assert forall|i: int| 0 <= i < ls.len() implies lines::is_line(#[trigger] ls[i])
        && lines::line_reading(ls[i]) == rs[i] by {
        lines::law_line_round_trip(rs[i]);
    }
    assert(lines::readings(ls) =~= rs);
    model::law_limits_fit(rs);
    law_run(file, owner, cuts, threads, owner.len());
    chunks::law_last_bound(file);
}

/// The summaries that tables hold.
pub open spec fn views(tables: Seq<Table>) -> Seq<Map<Seq<u8>, Stats>> {
    tables.map_values(|t: Table| t@)
}

/// Folds all tables into the first one, or gives nothing if they do not fit
/// into one table together.
pub fn merge_tables(tables: Vec<Table>) -> (r: Option<Table>)
    requires
        tables@.len() > 0,
        forall|t: int| 0 <= t < tables@.len() ==> (#[trigger] tables@[t]).wf(),
    ensures
        match r {
            Some(table) => {
                &&& model::fits(join_all(views(tables@)))
                &&& table.wf()
                &&& table@ == join_all(views(tables@))
            },
            None => !model::fits(join_all(views(tables@))),
        },
{
    let ghost all = views(tables@);
    let mut rest = tables;
    let mut acc = rest.remove(0);
    proof {
        assert forall|t: int| 0 <= t < all.len() implies model::all_coherent(#[trigger] all[t]) by {
            tables@[t].lemma_wf();
        }
        let first = all.take(1);
        assert(first.drop_last() =~= Seq::empty());
        assert(join_all(first) == model::join(join_all(first.drop_last()), first.last()));
        model::law_join_empty(acc@);
    }
    let mut i: usize = 0;
    while i < rest.len()
        invariant
            i <= rest@.len(),
            all == views(tables@),
            all.len() == rest@.len() + 1,
            forall|t: int| 0 <= t < all.len() ==> model::all_coherent(#[trigger] all[t]),
            forall|t: int|
                0 <= t < rest@.len() ==> (#[trigger] rest@[t]).wf() && rest@[t]@ == all[t + 1],
            acc.wf(),
            acc@ == join_all(all.take(i + 1)),
        decreases rest@.len() - i,
    {
        proof {
            let next = all.take(i + 2);
            assert(next.drop_last() =~= all.take(i + 1));
            assert(next.last() == rest@[i as int]@);
            if model::fits(join_all(all)) {
                lemma_fits_each(all);
            }
            assert(model::fits(join_all(all)) ==> model::fits(join_all(next)));
        }
        if !acc.can_merge(&rest[i]) {
            return None;
        }
        acc.merge(&rest[i]);
        i += 1;
    }
    proof {
        assert(all.take(i + 1) =~= all);
        acc.lemma_wf();
    }
    Some(acc)
}

/// Law: no tables hold nothing, and one more table adds what it holds.
pub proof fn law_join_all(ms: Seq<Map<Seq<u8>, Stats>>, x: Map<Seq<u8>, Stats>)
    ensures
        join_all(Seq::empty()) == Map::<Seq<u8>, Stats>::empty(),
        join_all(ms.push(x)) == model::join(join_all(ms), x),
{
    assert(ms.push(x).drop_last() =~= ms);
    assert(ms.push(x).last() == x);
}

/// Law: the summaries of tables are those of each of them, in order.
pub proof fn law_views(tables: Seq<Table>)
    ensures
        views(tables).len() == tables.len(),
        forall|t: int| 0 <= t < tables.len() ==> #[trigger] views(tables)[t] == tables[t]@,
{
}

/// The bytes of a file from offset `off` on, at most `size` of them.
pub open spec fn block_at(file: Seq<u8>, off: int, size: nat) -> Seq<u8> {
    if off >= file.len() {
        Seq::empty()
    } else if off + size >= file.len() {
        file.skip(off)
    } else {
        file.subrange(off, off + size)
    }
}

/// A scan that is fed as it asks for it: as long as it is not done, the next
/// block is what the file holds at the offset where the scan wants to go on, at
/// most the next of `sizes` bytes of it.
pub open spec fn stream(
    st: ScanState,
    m: Map<Seq<u8>, Stats>,
    file: Seq<u8>,
    sizes: Seq<nat>,
) -> (ScanState, Map<Seq<u8>, Stats>, Option<Fault>)
    decreases sizes.len(),
{
    if st.done() || sizes.len() == 0 {
        (st, m, None)
    } else {
        let block = block_at(file, st.base + st.pending.len(), sizes[0]);
        let p = scan::feed_lines(st, m, block);
        let next = scan::feed_state(st, m, block);
        match p.fault {
            Some(f) => (next, p.summaries, Some(f)),
            None => stream(next, p.summaries, file, sizes.drop_first()),
        }
    }
}

/// A scan that has come up to `off` goes on there.
proof fn lemma_stream(
    st: ScanState,
    m: Map<Seq<u8>, Stats>,
    file: Seq<u8>,
    sizes: Seq<nat>,
)
    requires
        !st.ended,
        model::all_coherent(m),
        forall|i: int| 0 <= i < sizes.len() ==> #[trigger] sizes[i] > 0,
        st.base < st.end ==> {
            let off = st.base + st.pending.len();
            &&& 0 <= st.base
            &&& off <= file.len()
            &&& st.pending == file.subrange(st.base, off)
            &&& sizes.len() > file.len() - off
            &&& proper(file.skip(st.base), st.end - st.base)
            &&& model::fits(whole(m, file.skip(st.base), st.base, st.end))
        },
    ensures
        ({
            let r = stream(st, m, file, sizes);
            &&& r.0.done()
            &&& r.1 == if st.base < st.end {
                whole(m, file.skip(st.base), st.base, st.end)
            } else {
                m
            }
            &&& r.2 is None
        }),
    decreases sizes.len(),
{
    if st.base < st.end {
        let off = st.base + st.pending.len();
        let block = block_at(file, off, sizes[0]);
        let data = st.pending + block;
        let all = file.skip(st.base);
        let p = scan::feed_lines(st, m, block);
        let next = scan::feed_state(st, m, block);
        scan::law_feed_goes_on(st, m, block);
        if off == file.len() {
            assert(data =~= all);
            lemma_read_tail(m, all, st.base, st.end);
            assert(stream(next, p.summaries, file, sizes.drop_first()) == (
                next,
                p.summaries,
                None::<Fault>,
            ));
        } else {
            let more = file.skip(off + block.len());
            assert(all =~= data + more);
            lemma_read_ahead(m, data, more, st.base, st.end);
            let rest = sizes.drop_first();
            assert forall|i: int| 0 <= i < rest.len() implies #[trigger] rest[i] > 0 by {
                assert(rest[i] == sizes[i + 1]);
            }
            if next.base < next.end {
                let to = off + block.len();
                assert(data =~= file.subrange(st.base, to));
                assert(next.pending =~= file.subrange(next.base, to));
                assert(next.pending + more =~= file.skip(next.base));
            } else {
                assert(readings_before(p.rest + more, next.end - next.base) =~= Seq::empty());
                model::law_join_empty(p.summaries);
            }
            lemma_stream(next, p.summaries, file, rest);
        }
    }
}

/// Law: a scan that sets out at `begin` and is fed the bytes of the file at the
/// offsets that it asks for, however many come at a time, adds the readings of
/// exactly those lines that start in the range, and is done, provided that the
/// lines are proper and fit.
pub proof fn law_stream_is_exact(
    m: Map<Seq<u8>, Stats>,
    file: Seq<u8>,
    sizes: Seq<nat>,
    begin: int,
    end: int,
)
    requires
        model::all_coherent(m),
        0 <= begin <= file.len(),
        forall|i: int| 0 <= i < sizes.len() ==> #[trigger] sizes[i] > 0,
        sizes.len() > file.len() - begin,
        proper(file.skip(begin), end - begin),
        model::fits(
            model::join(m, model::summarize(readings_before(file.skip(begin), end - begin))),
        ),
    ensures
        ({
            let st = ScanState { pending: Seq::empty(), base: begin, end, ended: false };
            let r = stream(st, m, file, sizes);
            &&& r.0.done()
            &&& r.1 == model::join(
                m,
                model::summarize(readings_before(file.skip(begin), end - begin)),
            )
            &&& r.2 is None
        }),
{
    let st = ScanState { pending: Seq::empty(), base: begin, end, ended: false };
    assert(st.pending =~= file.subrange(begin, begin));
    lemma_stream(st, m, file, sizes);
    if begin >= end {
        assert(readings_before(file.skip(begin), end - begin) =~= Seq::empty());
        model::law_join_empty(m);
    }
}

/// The tables of all threads once the first `k` chunks have been streamed, each
/// by its owner, or nothing if a scan had a fault.
pub open spec fn tables_streamed(
    file: Seq<u8>,
    owner: Seq<int>,
    sizes: Seq<Seq<nat>>,
    threads: nat,
    k: nat,
) -> Option<Seq<Map<Seq<u8>, Stats>>>
    decreases k,
{
    if k == 0 {
        Some(Seq::new(threads, |t: int| Map::empty()))
    } else {
        match tables_streamed(file, owner, sizes, threads, (k - 1) as nat) {
            None => None,
            Some(before) => {
                let w = owner[k - 1];
                let st = ScanState {
                    pending: Seq::empty(),
                    base: chunks::bound(file, k - 1),
                    end: chunks::bound(file, k as int),
                    ended: false,
                };
                let r = stream(st, before[w], file, sizes[k - 1]);
                if r.2 is None {
                    Some(before.update(w, r.1))
                } else {
                    None
                }
            },
        }
    }
}

/// Whether reads of these sizes come to the end of a file of `flen` bytes.
#[verifier::opaque]
pub open spec fn enough(sizes: Seq<nat>, flen: nat) -> bool {
    &&& sizes.len() > flen
    &&& forall|i: int| 0 <= i < sizes.len() ==> #[trigger] sizes[i] > 0
}

proof fn lemma_streamed(
    file: Seq<u8>,
    owner: Seq<int>,
    sizes: Seq<Seq<nat>>,
    threads: nat,
    k: nat,
)
    requires
        proper(file, file.len() as int),
        model::fits(model::summarize(readings_before(file, file.len() as int))),
        k <= owner.len(),
        owner.len() == sizes.len(),
        forall|i: int| 0 <= i < owner.len() ==> 0 <= #[trigger] owner[i] < threads,
        forall|i: int| 0 <= i < sizes.len() ==> enough(#[trigger] sizes[i], file.len()),
    ensures
        match tables_streamed(file, owner, sizes, threads, k) {
            Some(ts) => ts.len() == threads && hold_readings(
                ts,
                file,
                chunks::bound(file, k as int),
            ),
            None => false,
        },
    decreases k,
{
    if k == 0 {
        let ts = tables_streamed(file, owner, sizes, threads, 0).unwrap();
        lemma_join_all_empty(ts);
        assert(readings_before(file, 0) =~= Seq::empty());
        assert(Map::<Seq<u8>, Stats>::empty().dom() =~= Set::empty());
        lemma_fits_each(ts);
    } else {
        let i = k - 1;
        lemma_streamed(file, owner, sizes, threads, i as nat);
        let before = tables_streamed(file, owner, sizes, threads, i as nat).unwrap();
        let w = owner[i];
        lemma_stream_step(file, before, w, i, sizes[i]);
        let st = ScanState {
            pending: Seq::empty(),
            base: chunks::bound(file, i),
            end: chunks::bound(file, i + 1),
            ended: false,
        };
        let ts = before.update(w, stream(st, before[w], file, sizes[i]).1);
        lemma_fits_each(ts);
        assert(tables_streamed(file, owner, sizes, threads, k) == Some(ts));
    }
}

proof fn lemma_stream_step(
    file: Seq<u8>,
    before: Seq<Map<Seq<u8>, Stats>>,
    w: int,
    i: int,
    sizes: Seq<nat>,
)
    requires
        proper(file, file.len() as int),
        model::fits(model::summarize(readings_before(file, file.len() as int))),
        0 <= i,
        0 <= w < before.len(),
        join_all(before) == model::summarize(readings_before(file, chunks::bound(file, i))),
        forall|t: int| 0 <= t < before.len() ==> model::all_coherent(#[trigger] before[t]),
        enough(sizes, file.len()),
    ensures
        ({
            let st = ScanState {
                pending: Seq::empty(),
                base: chunks::bound(file, i),
                end: chunks::bound(file, i + 1),
                ended: false,
            };
            let r = stream(st, before[w], file, sizes);
            let ts = before.update(w, r.1);
            &&& r.2 is None
            &&& join_all(ts) == model::summarize(
                readings_before(file, chunks::bound(file, i + 1)),
            )
            &&& forall|t: int| 0 <= t < ts.len() ==> model::all_coherent(#[trigger] ts[t])
            &&& model::fits(join_all(ts))
        }),
{
    reveal(enough);
    lemma_chunk_room(file, before, w, i);
    chunks::lemma_line_start(file, i * chunks::CHUNK);
    let (a, b) = (chunks::bound(file, i), chunks::bound(file, i + 1));
    assert(0 <= a <= file.len());
    law_stream_is_exact(before[w], file, sizes, a, b);
}

/// Law: from any input of up to 4,294,967,295 readings of up to 65,536
/// stations, named by 1 to 100 bytes other than `;` and the newline, of at most
/// 99.9 degrees either way, with or without a newline at the end, the merged
/// tables hold these readings: whichever thread takes which chunk, and however
/// many bytes come at a time of what a scan asks for.
pub proof fn law_any_input(
    rs: Seq<Reading>,
    file: Seq<u8>,
    owner: Seq<int>,
    sizes: Seq<Seq<nat>>,
    threads: nat,
)
    requires
        forall|i: int|
            0 <= i < rs.len() ==> {
                &&& 1 <= (#[trigger] rs[i]).name.len() <= 100
                &&& !rs[i].name.contains(0x3B)
                &&& !rs[i].name.contains(0x0A)
                &&& -999 <= rs[i].tenths <= 999
            },
        rs.len() <= 4_294_967_295,
        rs.map_values(|r: Reading| r.name).to_set().len() <= 65_536,
        file == lines::file_text(rs) || (rs.len() > 0 && file == lines::file_text(rs).drop_last()),
        owner.len() == chunks::chunks(file.len() as int),
        owner.len() == sizes.len(),
        forall|i: int| 0 <= i < owner.len() ==> 0 <= #[trigger] owner[i] < threads,
        forall|i: int| 0 <= i < sizes.len() ==> enough(#[trigger] sizes[i], file.len()),
    ensures
        match tables_streamed(file, owner, sizes, threads, owner.len()) {
            Some(ts) => {
                &&& ts.len() == threads
                &&& join_all(ts) == model::summarize(rs)
                &&& model::fits(join_all(ts))
            },
            None => false,
        },
{
    let ls = lines::lines(file, file.len() as int);
    assert forall|i: int| 0 <= i < rs.len() implies lines::valid(#[trigger] rs[i]) by {}
    lines::law_lines_of_file(rs);
    assert(ls == rs.map_values(|r: Reading| lines::line_text(r)));
    assert forall|i: int| 0 <= i < ls.len() implies lines::is_line(#[trigger] ls[i])
        && lines::line_reading(ls[i]) == rs[i] by {
        lines::law_line_round_trip(rs[i]);
    }
    assert(lines::readings(ls) =~= rs);
    model::law_limits_fit(rs);
    lemma_streamed(file, owner, sizes, threads, owner.len());
    chunks::law_last_bound(file);
}

} // verus!
