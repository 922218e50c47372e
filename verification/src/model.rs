//! What a set of readings amounts to: one summary per station, and the ways
//! in which summaries add up.

use vstd::prelude::*;

verus! {

/// Number of slots of a table, a power of two comfortably above the number of
/// stations an input names.
pub const CAP: usize = 0x1_0000;

/// One reading: a station and a temperature in tenths of a degree.
pub struct Reading {
    pub name: Seq<u8>,
    pub tenths: int,
}

/// What is kept of the readings of one station.
pub struct Stats {
    pub min: int,
    pub max: int,
    pub count: int,
    pub sum: int,
}

impl Stats {
    /// The summary of a single reading.
    pub open spec fn of(tenths: int) -> Stats {
        Stats { min: tenths, max: tenths, count: 1, sum: tenths }
    }

    /// The summary of two groups of readings of one station.
    pub open spec fn combine(self, other: Stats) -> Stats {
        Stats {
            min: if other.min < self.min { other.min } else { self.min },
            max: if other.max > self.max { other.max } else { self.max },
            count: self.count + other.count,
            sum: self.sum + other.sum,
        }
    }

    /// Holds of every summary of at least one `i16` reading.
    pub open spec fn coherent(self) -> bool {
        &&& i16::MIN <= self.min <= self.max <= i16::MAX
        &&& 1 <= self.count
        &&& self.min * self.count <= self.sum <= self.max * self.count
    }
}

/// A summary of one station alone. Readings without a station name count for
/// nothing.
pub open spec fn single(name: Seq<u8>, s: Stats) -> Map<Seq<u8>, Stats> {
    if name.len() == 0 {
        Map::empty()
    } else {
        Map::empty().insert(name, s)
    }
}

/// The summaries of two groups of readings taken together.
pub open spec fn join(a: Map<Seq<u8>, Stats>, b: Map<Seq<u8>, Stats>) -> Map<Seq<u8>, Stats> {
    Map::new(
        |n: Seq<u8>| a.contains_key(n) || b.contains_key(n),
        |n: Seq<u8>|
            if a.contains_key(n) && b.contains_key(n) {
                a[n].combine(b[n])
            } else if a.contains_key(n) {
                a[n]
            } else {
                b[n]
            },
    )
}

/// The summaries with one more reading.
pub open spec fn absorb(m: Map<Seq<u8>, Stats>, r: Reading) -> Map<Seq<u8>, Stats> {
    join(m, single(r.name, Stats::of(r.tenths)))
}

/// The summaries of a sequence of readings.
pub open spec fn summarize(rs: Seq<Reading>) -> Map<Seq<u8>, Stats>
    decreases rs.len(),
{
    if rs.len() == 0 {
        Map::empty()
    } else {
        absorb(summarize(rs.drop_last()), rs.last())
    }
}

/// The bytes that the names of a finite set take, each counted once.
pub open spec fn name_bytes(names: Set<Seq<u8>>) -> nat
    decreases names.len(),
    when names.finite()
{
    if names.len() == 0 {
        0
    } else {
        let n = names.choose();
        n.len() + name_bytes(names.remove(n))
    }
}

/// Whether a table can hold these summaries: its slots, the 32-bit offsets
/// into its name arena and its 32-bit counts suffice.
pub open spec fn fits(m: Map<Seq<u8>, Stats>) -> bool {
    &&& m.dom().finite()
    &&& m.dom().len() <= CAP
    &&& name_bytes(m.dom()) <= u32::MAX
    &&& forall|n: Seq<u8>| #[trigger] m.contains_key(n) ==> m[n].count <= u32::MAX
}

/// Whether these are summaries of actual readings of named stations.
pub open spec fn all_coherent(m: Map<Seq<u8>, Stats>) -> bool {
    forall|n: Seq<u8>| #[trigger] m.contains_key(n) ==> n.len() > 0 && m[n].coherent()
}

/// `combine` keeps summaries coherent.
pub proof fn lemma_combine_coherent(a: Stats, b: Stats)
    requires
        a.coherent(),
        b.coherent(),
    ensures
        a.combine(b).coherent(),
{
    let c = a.combine(b);
    assert(c.min * c.count <= a.min * a.count + b.min * b.count) by (nonlinear_arith)
        requires
            c.count == a.count + b.count,
            c.min <= a.min,
            c.min <= b.min,
            a.count >= 1,
            b.count >= 1,
    ;
    assert(a.max * a.count + b.max * b.count <= c.max * c.count) by (nonlinear_arith)
        requires
            c.count == a.count + b.count,
            c.max >= a.max,
            c.max >= b.max,
            a.count >= 1,
            b.count >= 1,
    ;
}

/// `join` keeps summaries coherent.
pub proof fn lemma_join_coherent(a: Map<Seq<u8>, Stats>, b: Map<Seq<u8>, Stats>)
    requires
        all_coherent(a),
        all_coherent(b),
    ensures
        all_coherent(join(a, b)),
{
    assert forall|n: Seq<u8>| #[trigger] join(a, b).contains_key(n) implies n.len() > 0
        && join(a, b)[n].coherent() by {
        if a.contains_key(n) && b.contains_key(n) {
            lemma_combine_coherent(a[n], b[n]);
        }
    }
}

/// A name adds its length to the bytes of a set that lacks it.
pub proof fn lemma_name_bytes_insert(names: Set<Seq<u8>>, n: Seq<u8>)
    requires
        names.finite(),
        !names.contains(n),
    ensures
        name_bytes(names.insert(n)) == name_bytes(names) + n.len(),
    decreases names.len(),
{
    let big = names.insert(n);
    let c = big.choose();
    assert(big.contains(n));
    assert(big.contains(c));
    if c == n {
        assert(big.remove(n) =~= names);
    } else {
        assert(names.contains(c));
        let less = names.remove(c);
        assert(big.remove(c) =~= less.insert(n));
        lemma_name_bytes_insert(less, n);
        lemma_name_bytes_insert(less, c);
        assert(less.insert(c) =~= names);
    }
}

/// Fewer names take no more bytes.
pub proof fn lemma_name_bytes_subset(small: Set<Seq<u8>>, big: Set<Seq<u8>>)
    requires
        big.finite(),
        small.subset_of(big),
    ensures
        small.finite(),
        small.len() <= big.len(),
        name_bytes(small) <= name_bytes(big),
    decreases big.len(),
{
    vstd::set_lib::lemma_len_subset(small, big);
    if big.len() == 0 {
        assert(small =~= big);
    } else {
        let c = big.choose();
        assert(big.contains(c));
        let rest = big.remove(c);
        if small.contains(c) {
            lemma_name_bytes_subset(small.remove(c), rest);
            lemma_name_bytes_insert(small.remove(c), c);
            assert(small.remove(c).insert(c) =~= small);
        } else {
            lemma_name_bytes_subset(small, rest);
        }
    }
}

/// Names that two sets do not share take the bytes of both.
pub proof fn lemma_name_bytes_union(a: Set<Seq<u8>>, b: Set<Seq<u8>>)
    requires
        a.finite(),
        b.finite(),
        a.disjoint(b),
    ensures
        name_bytes(a.union(b)) == name_bytes(a) + name_bytes(b),
    decreases b.len(),
{
    if b.len() == 0 {
        assert(a.union(b) =~= a);
    } else {
        let c = b.choose();
        assert(b.contains(c));
        let rest = b.remove(c);
        lemma_name_bytes_union(a, rest);
        lemma_name_bytes_insert(rest, c);
        assert(rest.insert(c) =~= b);
        lemma_name_bytes_insert(a.union(rest), c);
        assert(a.union(rest).insert(c) =~= a.union(b));
    }
}

/// Where the whole fits, a part of it does.
pub proof fn lemma_fits_part(
    a: Map<Seq<u8>, Stats>,
    part: Map<Seq<u8>, Stats>,
    whole: Map<Seq<u8>, Stats>,
)
    requires
        all_coherent(a),
        all_coherent(whole),
        part.submap_of(whole),
        fits(join(a, whole)),
    ensures
        fits(join(a, part)),
{
    let small = join(a, part);
    let big = join(a, whole);
    assert(small.dom().subset_of(big.dom()));
    lemma_name_bytes_subset(small.dom(), big.dom());
    assert forall|n: Seq<u8>| #[trigger] small.contains_key(n) implies small[n].count
        <= u32::MAX by {
        assert(big.contains_key(n));
    }
}

/// Where two groups fit together, the first fits alone.
pub proof fn lemma_fits_left(a: Map<Seq<u8>, Stats>, b: Map<Seq<u8>, Stats>)
    requires
        all_coherent(a),
        all_coherent(b),
        fits(join(a, b)),
    ensures
        fits(a),
{
    let both = join(a, b);
    assert(a.dom().subset_of(both.dom()));
    lemma_name_bytes_subset(a.dom(), both.dom());
    assert forall|n: Seq<u8>| #[trigger] a.contains_key(n) implies a[n].count <= u32::MAX by {
        assert(both.contains_key(n));
    }
}

/// Whether a reading is an `i16`.
pub open spec fn in_range(r: Reading) -> bool {
    i16::MIN <= r.tenths <= i16::MAX
}

/// A single reading makes a coherent summary.
pub proof fn lemma_single_coherent(r: Reading)
    requires
        in_range(r),
    ensures
        all_coherent(single(r.name, Stats::of(r.tenths))),
{
    assert(r.tenths * 1 == r.tenths);
}

/// Summaries of readings are coherent.
pub proof fn lemma_summarize_coherent(rs: Seq<Reading>)
    requires
        forall|i: int| 0 <= i < rs.len() ==> in_range(#[trigger] rs[i]),
    ensures
        all_coherent(summarize(rs)),
    decreases rs.len(),
{
    if rs.len() > 0 {
        let front = rs.drop_last();
        assert forall|i: int| 0 <= i < front.len() implies in_range(#[trigger] front[i]) by {
            assert(front[i] == rs[i]);
        }
        lemma_summarize_coherent(front);
        lemma_single_coherent(rs.last());
        lemma_join_coherent(summarize(front), single(rs.last().name, Stats::of(rs.last().tenths)));
    }
}

/// The first reading may be taken first.
pub proof fn lemma_summarize_first(m: Map<Seq<u8>, Stats>, r: Reading, rs: Seq<Reading>)
    ensures
        join(m, summarize(seq![r] + rs)) == join(absorb(m, r), summarize(rs)),
{
    let one = seq![r];
    assert(one.drop_last() =~= Seq::empty());
    assert(one.last() == r);
    let s = single(r.name, Stats::of(r.tenths));
    law_join_empty(s);
    assert(summarize(one) == s) by {
        assert(summarize(one) == absorb(summarize(one.drop_last()), one.last()));
        assert(summarize(one.drop_last()) == Map::<Seq<u8>, Stats>::empty());
    }
    law_summarize_concat(one, rs);
    law_join_associates(m, s, summarize(rs));
}

/// Law: it does not matter which of two groups of readings is taken first.
pub proof fn law_join_commutes(a: Map<Seq<u8>, Stats>, b: Map<Seq<u8>, Stats>)
    ensures
        join(a, b) == join(b, a),
{
    assert(join(a, b) =~= join(b, a));
}

/// Law: groups of readings may be taken together in any grouping.
pub proof fn law_join_associates(
    a: Map<Seq<u8>, Stats>,
    b: Map<Seq<u8>, Stats>,
    c: Map<Seq<u8>, Stats>,
)
    ensures
        join(join(a, b), c) == join(a, join(b, c)),
{
    assert(join(join(a, b), c) =~= join(a, join(b, c)));
}

/// Law: a group without readings changes nothing.
pub proof fn law_join_empty(a: Map<Seq<u8>, Stats>)
    ensures
        join(a, Map::empty()) == a,
        join(Map::empty(), a) == a,
{
    assert(join(a, Map::empty()) =~= a);
    assert(join(Map::empty(), a) =~= a);
}

/// Law: the readings of two parts, summarized apart and joined, give the
/// summary of the whole.
pub proof fn law_summarize_concat(a: Seq<Reading>, b: Seq<Reading>)
    ensures
        summarize(a + b) == join(summarize(a), summarize(b)),
    decreases b.len(),
{
    if b.len() == 0 {
        assert(a + b =~= a);
        law_join_empty(summarize(a));
    } else {
        let all = a + b;
        assert(all.drop_last() =~= a + b.drop_last());
        assert(all.last() == b.last());
        law_summarize_concat(a, b.drop_last());
        law_join_associates(
            summarize(a),
            summarize(b.drop_last()),
            single(b.last().name, Stats::of(b.last().tenths)),
        );
    }
}

/// Law: the order of the readings does not matter.
pub proof fn law_order_of_readings(a: Seq<Reading>, b: Seq<Reading>)
    requires
        a.to_multiset() == b.to_multiset(),
    ensures
        summarize(a) == summarize(b),
{
    let f = |m: Map<Seq<u8>, Stats>, r: Reading| absorb(m, r);
    assert forall|x: Reading, y: Reading, m: Map<Seq<u8>, Stats>| #[trigger]
        f(f(m, x), y) == f(f(m, y), x) by {
        let sx = single(x.name, Stats::of(x.tenths));
        let sy = single(y.name, Stats::of(y.tenths));
        law_join_associates(m, sx, sy);
        law_join_commutes(sx, sy);
        law_join_associates(m, sy, sx);
    }
    vstd::seq_lib::lemma_fold_left_permutation(a, b, f, Map::empty());
    lemma_summarize_is_fold(a, f);
    lemma_summarize_is_fold(b, f);
}

proof fn lemma_summarize_is_fold(
    rs: Seq<Reading>,
    f: spec_fn(Map<Seq<u8>, Stats>, Reading) -> Map<Seq<u8>, Stats>,
)
    requires
        forall|m: Map<Seq<u8>, Stats>, r: Reading| #[trigger] f(m, r) == absorb(m, r),
    ensures
        summarize(rs) == rs.fold_left(Map::empty(), f),
    decreases rs.len(),
{
    if rs.len() > 0 {
        lemma_summarize_is_fold(rs.drop_last(), f);
    }
}

/// Number of readings of one station.
pub open spec fn count_of(rs: Seq<Reading>, n: Seq<u8>) -> int
    decreases rs.len(),
{
    if rs.len() == 0 {
        0
    } else {
        count_of(rs.drop_last(), n) + if rs.last().name == n {
            1int
        } else {
            0int
        }
    }
}

/// Sum of the readings of one station.
pub open spec fn sum_of(rs: Seq<Reading>, n: Seq<u8>) -> int
    decreases rs.len(),
{
    if rs.len() == 0 {
        0
    } else {
        sum_of(rs.drop_last(), n) + if rs.last().name == n {
            rs.last().tenths
        } else {
            0
        }
    }
}

/// Law: the stations of a summary are those that were read, each with its
/// number of readings, their sum, the least and the greatest of them.
pub proof fn law_summary_of_station(rs: Seq<Reading>, n: Seq<u8>)
    requires
        n.len() > 0,
    ensures
        summarize(rs).contains_key(n) <==> exists|i: int|
            0 <= i < rs.len() && (#[trigger] rs[i]).name == n,
        summarize(rs).contains_key(n) ==> {
            let s = summarize(rs)[n];
            &&& s.count == count_of(rs, n)
            &&& s.sum == sum_of(rs, n)
            &&& forall|i: int|
                0 <= i < rs.len() && (#[trigger] rs[i]).name == n ==> s.min <= rs[i].tenths
                    <= s.max
            &&& exists|i: int|
                0 <= i < rs.len() && (#[trigger] rs[i]).name == n && rs[i].tenths == s.min
            &&& exists|i: int|
                0 <= i < rs.len() && (#[trigger] rs[i]).name == n && rs[i].tenths == s.max
        },
        !summarize(rs).contains_key(n) ==> count_of(rs, n) == 0 && sum_of(rs, n) == 0,
    decreases rs.len(),
{
    if rs.len() > 0 {
        let front = rs.drop_last();
        let last = rs.last();
        let k = rs.len() - 1;
        law_summary_of_station(front, n);
        assert(rs[k] == last);
        assert forall|i: int| 0 <= i < k implies #[trigger] rs[i] == front[i] by {}
        if summarize(front).contains_key(n) {
            let f = summarize(front)[n];
            let i = choose|i: int|
                0 <= i < front.len() && (#[trigger] front[i]).name == n && front[i].tenths == f.min;
            let j = choose|j: int|
                0 <= j < front.len() && (#[trigger] front[j]).name == n && front[j].tenths == f.max;
            assert(rs[i] == front[i] && rs[j] == front[j]);
        }
    }
}

/// Law: a table has room for up to `u32::MAX` readings of up to `CAP`
/// stations whose names have at most a hundred bytes each.
pub proof fn law_limits_fit(rs: Seq<Reading>)
    requires
        rs.len() <= u32::MAX,
        rs.map_values(|r: Reading| r.name).to_set().len() <= CAP,
        forall|i: int| 0 <= i < rs.len() ==> (#[trigger] rs[i]).name.len() <= 100,
    ensures
        fits(summarize(rs)),
{
    let names = rs.map_values(|r: Reading| r.name);
    vstd::seq_lib::seq_to_set_is_finite(names);
    let m = summarize(rs);
    assert forall|n: Seq<u8>| #[trigger] m.contains_key(n) implies names.to_set().contains(n)
        && n.len() <= 100 && m[n].count <= rs.len() by {
        lemma_named(rs, n);
        law_summary_of_station(rs, n);
        lemma_count_of(rs, n);
        let i = choose|i: int| 0 <= i < rs.len() && (#[trigger] rs[i]).name == n;
        assert(names[i] == n);
    }
    assert(m.dom().subset_of(names.to_set()));
    vstd::set_lib::lemma_len_subset(m.dom(), names.to_set());
    lemma_short_names(m.dom(), 100);
}

/// Every station of a summary has a name.
proof fn lemma_named(rs: Seq<Reading>, n: Seq<u8>)
    requires
        summarize(rs).contains_key(n),
    ensures
        n.len() > 0,
    decreases rs.len(),
{
    if rs.len() > 0 {
        if summarize(rs.drop_last()).contains_key(n) {
            lemma_named(rs.drop_last(), n);
        }
    }
}

proof fn lemma_count_of(rs: Seq<Reading>, n: Seq<u8>)
    ensures
        0 <= count_of(rs, n) <= rs.len(),
    decreases rs.len(),
{
    if rs.len() > 0 {
        lemma_count_of(rs.drop_last(), n);
    }
}

/// Names of at most `k` bytes take at most `k` bytes each.
proof fn lemma_short_names(names: Set<Seq<u8>>, k: nat)
    requires
        names.finite(),
        forall|n: Seq<u8>| #[trigger] names.contains(n) ==> n.len() <= k,
    ensures
        name_bytes(names) <= names.len() * k,
    decreases names.len(),
{
    if names.len() > 0 {
        let c = names.choose();
        assert(names.contains(c));
        let rest = names.remove(c);
        lemma_short_names(rest, k);
        assert((names.len() - 1) * k + k == names.len() * k) by (nonlinear_arith);
    }
}

/// Law: together, two groups name the stations of either, with the lesser
/// minimum, the greater maximum, and the counts and the sums added up where
/// both name one.
pub proof fn law_join_by_station(a: Map<Seq<u8>, Stats>, b: Map<Seq<u8>, Stats>, n: Seq<u8>)
    ensures
        join(a, b).contains_key(n) <==> a.contains_key(n) || b.contains_key(n),
        a.contains_key(n) && !b.contains_key(n) ==> join(a, b)[n] == a[n],
        b.contains_key(n) && !a.contains_key(n) ==> join(a, b)[n] == b[n],
        a.contains_key(n) && b.contains_key(n) ==> {
            let s = join(a, b)[n];
            &&& s.min <= a[n].min && s.min <= b[n].min
            &&& s.min == a[n].min || s.min == b[n].min
            &&& s.max >= a[n].max && s.max >= b[n].max
            &&& s.max == a[n].max || s.max == b[n].max
            &&& s.count == a[n].count + b[n].count
            &&& s.sum == a[n].sum + b[n].sum
        },
{
}

/// Law: one more reading touches its station alone: it is a station's first
/// reading, or lowers its minimum or raises its maximum where it lies beyond
/// them, counts as one and adds to the sum. Without a name it touches none.
pub proof fn law_one_more_reading(m: Map<Seq<u8>, Stats>, r: Reading, n: Seq<u8>)
    ensures
        r.name.len() == 0 ==> absorb(m, r) == m,
        n != r.name ==> (absorb(m, r).contains_key(n) <==> m.contains_key(n)),
        n != r.name && m.contains_key(n) ==> absorb(m, r)[n] == m[n],
        r.name.len() > 0 ==> {
            let s = absorb(m, r)[r.name];
            let o = m[r.name];
            &&& absorb(m, r).contains_key(r.name)
            &&& !m.contains_key(r.name) ==> s.min == r.tenths && s.max == r.tenths && s.count == 1
                && s.sum == r.tenths
            &&& m.contains_key(r.name) ==> {
                &&& s.min == if r.tenths < o.min {
                    r.tenths
                } else {
                    o.min
                }
                &&& s.max == if r.tenths > o.max {
                    r.tenths
                } else {
                    o.max
                }
                &&& s.count == o.count + 1
                &&& s.sum == o.sum + r.tenths
            }
        },
{
    if r.name.len() == 0 {
        law_join_empty(m);
    }
}

/// Law: no readings are no stations, and readings are taken in one by one.
pub proof fn law_one_by_one(rs: Seq<Reading>, r: Reading)
    ensures
        summarize(Seq::empty()) == Map::<Seq<u8>, Stats>::empty(),
        summarize(rs.push(r)) == absorb(summarize(rs), r),
{
    assert(rs.push(r).drop_last() =~= rs);
    assert(rs.push(r).last() == r);
}

/// Law: a table takes up to 65,536 stations, 4,294,967,295 bytes of names and
/// as many readings of each station, and no more.
pub proof fn law_fits(m: Map<Seq<u8>, Stats>)
    ensures
        fits(m) <==> {
            &&& m.dom().finite()
            &&& m.dom().len() <= 65_536
            &&& name_bytes(m.dom()) <= 4_294_967_295
            &&& forall|n: Seq<u8>| #[trigger] m.contains_key(n) ==> m[n].count <= 4_294_967_295
        },
{
}

/// Law: no names take no bytes, and each further name takes its own.
pub proof fn law_name_bytes(names: Set<Seq<u8>>, n: Seq<u8>)
    requires
        names.finite(),
        !names.contains(n),
    ensures
        name_bytes(Set::empty()) == 0,
        name_bytes(names.insert(n)) == name_bytes(names) + n.len(),
{
    lemma_name_bytes_insert(names, n);
}

/// Law: what a summary of actual readings satisfies.
pub proof fn law_coherent(s: Stats)
    ensures
        s.coherent() <==> {
            &&& -32_768 <= s.min <= s.max <= 32_767
            &&& s.count >= 1
            &&& s.min * s.count <= s.sum <= s.max * s.count
        },
{
}

} // verus!
