//! Cutting a file into chunks that end where lines do.

use vstd::prelude::*;

use crate::bytes;
use crate::bytes::NEWLINE;
use crate::lines;

verus! {

/// Bytes of a chunk. Many chunks per thread let fast cores take more of them
/// than slow ones.
pub const CHUNK: u64 = 0x100_0000;

/// The offset just past the first newline at or after `off`, or the end of the
/// file if there is none.
pub open spec fn line_start(file: Seq<u8>, off: int) -> int {
    if off >= file.len() {
        file.len() as int
    } else {
        off + lines::first_line_len(file.skip(off))
    }
}

/// Where a search for the start of a line stands.
#[derive(Clone, Copy, PartialEq, Eq, Structural, Debug)]
pub enum LineStart {
    /// The line starts here.
    At(u64),
    /// The file has to be read on from here.
    ReadOn(u64),
}

/// One step of the search for the first line start after `off` in a file of
/// `flen` bytes, on the block of the file at `off`. An empty block is the end
/// of the file.
pub open spec fn search_step(block: Seq<u8>, off: int, flen: int) -> LineStart {
    let n = bytes::find(block, NEWLINE);
    if off >= flen || block.len() == 0 {
        LineStart::At(flen as u64)
    } else if n < block.len() {
        LineStart::At((off + n + 1) as u64)
    } else {
        LineStart::ReadOn((off + block.len()) as u64)
    }
}

/// Looks for the offset just past the first newline at or after `off` in the
/// block of the file at `off`. Settles for the end of the file, `flen`, if
/// `off` or the block is at the end.
pub fn next_line_start(block: &[u8], off: u64, flen: u64) -> (r: LineStart)
    requires
        off + block@.len() <= u64::MAX,
    ensures
        r == search_step(block@, off as int, flen as int),
{
    if off >= flen || block.len() == 0 {
        return LineStart::At(flen);
    }
    let n = bytes::position(block, NEWLINE);
    if n < block.len() {
        LineStart::At(off + n as u64 + 1)
    } else {
        LineStart::ReadOn(off + n as u64)
    }
}

/// Law: a search block by block finds the line start that a search of the
/// whole file finds. Each step either ends there or goes on further up with
/// the same line start ahead.
pub proof fn law_search_by_blocks(file: Seq<u8>, off: int, n: int)
    requires
        file.len() <= u64::MAX,
        0 <= off < file.len(),
        1 <= n <= file.len() - off,
    ensures
        match search_step(file.subrange(off, off + n), off, file.len() as int) {
            LineStart::At(x) => x == line_start(file, off),
            LineStart::ReadOn(o) => off < o <= file.len() && line_start(file, o as int)
                == line_start(file, off),
        },
{
    let block = file.subrange(off, off + n);
    let tail = file.skip(off);
    let k = bytes::find(block, NEWLINE);
    bytes::lemma_find(block, NEWLINE);
    bytes::lemma_find(tail, NEWLINE);
    if k < block.len() {
        assert forall|i: int| 0 <= i < k implies tail[i] != NEWLINE by {
            assert(block[i] == tail[i]);
        }
        assert(block[k] == tail[k]);
        bytes::lemma_find_is(tail, NEWLINE, k);
    } else {
        let o = off + n;
        let ahead = file.skip(o);
        let t = bytes::find(tail, NEWLINE);
        if t < n {
            assert(block[t] == tail[t]);
        }
        assert forall|i: int| 0 <= i < t - n implies ahead[i] != NEWLINE by {
            assert(ahead[i] == tail[n + i]);
        }
        if t < tail.len() {
            assert(ahead[t - n] == tail[t]);
        }
        bytes::lemma_find_is(ahead, NEWLINE, t - n);
    }
}

/// Number of chunks of a file of `flen` bytes.
pub open spec fn chunks(flen: int) -> int {
    (flen + CHUNK - 1) / CHUNK as int
}

/// Number of chunks of a file of `flen` bytes.
pub fn chunk_count(flen: u64) -> (n: u64)
    ensures
        n == chunks(flen as int),
        (n - 1) * CHUNK < flen <= n * CHUNK,
{
    let whole = flen / CHUNK;
    if flen % CHUNK == 0 {
        whole
    } else {
        whole + 1
    }
}

/// Where chunk `i` starts: the file's first chunk at its first byte, the
/// others at the first line start past their first byte.
pub open spec fn bound(file: Seq<u8>, i: int) -> int {
    if i <= 0 {
        0
    } else {
        line_start(file, i * CHUNK)
    }
}

/// The bounds of the chunks of a file of `flen` bytes, from the line starts
/// that were found for the chunks after the first.
pub fn chunk_bounds(starts: &[u64], flen: u64) -> (b: Vec<u64>)
    ensures
        b@ == seq![0u64] + starts@ + seq![flen],
{
    let mut b: Vec<u64> = Vec::new();
    b.push(0);
    let mut i: usize = 0;
    while i < starts.len()
        invariant
            i <= starts@.len(),
            b@ == seq![0u64] + starts@.take(i as int),
        decreases starts@.len() - i,
    {
        b.push(starts[i]);
        assert(starts@.take(i + 1) =~= starts@.take(i as int).push(starts@[i as int]));
        assert(b@ =~= seq![0u64] + starts@.take(i + 1));
        i += 1;
    }
    b.push(flen);
    assert(b@ =~= seq![0u64] + starts@ + seq![flen]) by {
        assert(starts@.take(starts@.len() as int) =~= starts@);
    }
    b
}

/// Law: where the line starts were found for the chunks after the first, the
/// bounds that `chunk_bounds` makes of them are those of the chunks.
pub proof fn law_chunk_bounds(file: Seq<u8>, starts: Seq<u64>, i: int)
    requires
        0 < file.len() <= u64::MAX,
        starts.len() == chunks(file.len() as int) - 1,
        forall|j: int|
            0 <= j < starts.len() ==> #[trigger] starts[j] == line_start(file, (j + 1) * CHUNK),
        0 <= i <= chunks(file.len() as int),
    ensures
        (seq![0u64] + starts + seq![file.len() as u64])[i] == bound(file, i),
{
    if 0 < i <= starts.len() {
        assert(starts[i - 1] == line_start(file, i * CHUNK));
    }
}

/// Whether a line starts at offset `k`, or the file ends there.
pub open spec fn is_bound(file: Seq<u8>, k: int) -> bool {
    &&& 0 <= k <= file.len()
    &&& k == 0 || k == file.len() || file[k - 1] == NEWLINE
}

/// What `line_start` finds is the start of a line or the end of the file, and
/// moves up with the offset.
pub proof fn lemma_line_start(file: Seq<u8>, off: int)
    requires
        0 <= off,
    ensures
        is_bound(file, line_start(file, off)),
        off < file.len() ==> off < line_start(file, off),
        forall|o: int|
            off <= o ==> #[trigger] line_start(file, off) <= #[trigger] line_start(file, o),
{
    if off < file.len() {
        let tail = file.skip(off);
        bytes::lemma_find(tail, NEWLINE);
        assert forall|o: int| off <= o implies #[trigger] line_start(file, off)
            <= #[trigger] line_start(file, o) by {
            if o < file.len() {
                let ahead = file.skip(o);
                bytes::lemma_find(ahead, NEWLINE);
                let k = bytes::find(ahead, NEWLINE);
                if k < ahead.len() {
                    assert(tail[o - off + k] == ahead[k]);
                    if o - off + k < bytes::find(tail, NEWLINE) {
                        assert(tail[o - off + k] != NEWLINE);
                    }
                }
            }
        }
    }
}

/// Lines before a line start and lines from there on are all lines.
pub proof fn lemma_split(file: Seq<u8>, k: int, limit: int)
    requires
        is_bound(file, k),
        k <= limit,
    ensures
        lines::lines(file, limit) == lines::lines(file, k) + lines::lines(
            file.skip(k),
            limit - k,
        ),
    decreases file.len(),
{
    if k == 0 {
        assert(file.skip(0) =~= file);
        assert(lines::lines(file, 0) =~= Seq::empty());
        assert(lines::lines(file, limit) =~= Seq::empty() + lines::lines(file, limit));
    } else {
        let n = lines::first_line_len(file);
        lines::lemma_first_line_len(file);
        bytes::lemma_find(file, NEWLINE);
        // No line starts inside the first one.
        assert(n <= k) by {
            if k < n {
                assert(file[k - 1] != NEWLINE);
            }
        }
        let rest = file.skip(n);
        assert(is_bound(rest, k - n)) by {
            if k != file.len() && k != n {
                assert(rest[k - n - 1] == file[k - 1]);
            }
        }
        lemma_split(rest, k - n, limit - n);
        assert(rest.skip(k - n) =~= file.skip(k));
        let line = seq![lines::first_line(file)];
        assert(lines::lines(file, limit) == line + lines::lines(rest, limit - n));
        assert(lines::lines(file, k) == line + lines::lines(rest, k - n));
        assert(lines::lines(file, limit) =~= lines::lines(file, k) + lines::lines(
            file.skip(k),
            limit - k,
        ));
    }
}

/// The lines of chunk `i`: those that start between its bound and the next.
pub open spec fn chunk_lines(file: Seq<u8>, i: int) -> Seq<Seq<u8>> {
    lines::lines(file.skip(bound(file, i)), bound(file, i + 1) - bound(file, i))
}

/// Law: the lines of the first `n` chunks, one chunk after the other, are the
/// lines of the file up to the bound of chunk `n`, each once.
pub proof fn law_chunks_cover(file: Seq<u8>, n: nat)
    ensures
        Seq::new(n, |i: int| chunk_lines(file, i)).flatten() == lines::lines(
            file,
            bound(file, n as int),
        ),
    decreases n,
{
    let parts = Seq::new(n, |i: int| chunk_lines(file, i));
    if n == 0 {
        assert(parts =~= Seq::empty());
        assert(lines::lines(file, 0) =~= Seq::empty());
        assert(parts.flatten() =~= Seq::empty());
    } else {
        let front = Seq::new((n - 1) as nat, |i: int| chunk_lines(file, i));
        law_chunks_cover(file, (n - 1) as nat);
        let last = chunk_lines(file, n - 1);
        assert(parts =~= front.push(last));
        front.lemma_flatten_push(last);
        let k = bound(file, n - 1);
        lemma_line_start(file, (n - 1) * CHUNK);
        lemma_line_start(file, n * CHUNK);
        assert((n - 1) * CHUNK <= n * CHUNK);
        assert(is_bound(file, k));
        assert(k <= bound(file, n as int));
        lemma_split(file, k, bound(file, n as int));
    }
}

/// Law: the last bound is the end of the file, so that all chunks together
/// hold all lines.
pub proof fn law_last_bound(file: Seq<u8>)
    ensures
        bound(file, chunks(file.len() as int)) == file.len(),
        Seq::new(
            chunks(file.len() as int) as nat,
            |i: int| chunk_lines(file, i),
        ).flatten() == lines::lines(file, file.len() as int),
{
    let n = chunks(file.len() as int);
    law_chunks_cover(file, n as nat);
}

/// Law: a line start is past the offset and right behind the first newline at
/// or after it, or the end of the file if there is none.
pub proof fn law_line_start(file: Seq<u8>, off: int)
    requires
        0 <= off,
    ensures
        ({
            let x = line_start(file, off);
            &&& off >= file.len() ==> x == file.len()
            &&& off < file.len() ==> {
                &&& off < x <= file.len()
                &&& x == file.len() || file[x - 1] == 0x0A
                &&& forall|i: int| off <= i < x - 1 ==> file[i] != 0x0A
            }
        }),
{
    if off < file.len() {
        let tail = file.skip(off);
        let x = line_start(file, off);
        bytes::lemma_find(tail, NEWLINE);
        assert forall|i: int| off <= i < x - 1 implies file[i] != 0x0A by {
            assert(tail[i - off] == file[i]);
        }
    }
}

/// Law: a step of the search settles for the end of the file at its end, for
/// the byte behind the first newline of the block, or goes on behind the block.
pub proof fn law_search_step(block: Seq<u8>, off: int, flen: int)
    requires
        0 <= off,
        off + block.len() <= u64::MAX,
        0 <= flen <= u64::MAX,
    ensures
        match search_step(block, off, flen) {
            LineStart::At(x) => {
                ||| (off >= flen || block.len() == 0) && x == flen
                ||| {
                    &&& off < flen
                    &&& off < x <= off + block.len()
                    &&& block[x - off - 1] == 0x0A
                    &&& forall|i: int| 0 <= i < x - off - 1 ==> block[i] != 0x0A
                }
            },
            LineStart::ReadOn(x) => {
                &&& off < flen && block.len() > 0
                &&& x == off + block.len()
                &&& forall|i: int| 0 <= i < block.len() ==> block[i] != 0x0A
            },
        },
{
    bytes::lemma_find(block, NEWLINE);
}

/// Law: there are as many chunks of 16,777,216 bytes as it takes to hold the
/// file, and no more.
pub proof fn law_chunk_count(flen: int)
    requires
        0 <= flen,
    ensures
        (chunks(flen) - 1) * 16_777_216 < flen <= chunks(flen) * 16_777_216,
{
}

/// Law: the first chunk starts with the file, the others at the first line
/// start behind so many times 16,777,216 bytes.
pub proof fn law_bound(file: Seq<u8>, i: int)
    requires
        0 < i,
    ensures
        bound(file, 0) == 0,
        bound(file, i) == line_start(file, i * 16_777_216),
{
}

} // verus!
