//! The report: `{Name=min/mean/max, Name=min/mean/max, ...}` on one line,
//! stations in byte order.

use vstd::prelude::*;

use crate::bytes;
use crate::bytes::NEWLINE;
use crate::laws;
use crate::model;
use crate::model::Stats;
use crate::table;
use crate::table::{Entry, Table};
use crate::temperature;

verus! {

/// Byte order of strings: the first difference decides, and a prefix comes
/// first.
pub open spec fn lex_less(a: Seq<u8>, b: Seq<u8>) -> bool
    decreases a.len(),
{
    if b.len() == 0 {
        false
    } else if a.len() == 0 {
        true
    } else if a[0] != b[0] {
        a[0] < b[0]
    } else {
        lex_less(a.drop_first(), b.drop_first())
    }
}

/// Byte order is total, and no string comes before itself.
pub proof fn lemma_lex_total(a: Seq<u8>, b: Seq<u8>)
    ensures
        lex_less(a, b) ==> a != b && !lex_less(b, a),
        a != b ==> lex_less(a, b) || lex_less(b, a),
    decreases a.len(),
{
    if a.len() == 0 || b.len() == 0 {
        if a.len() == 0 && b.len() == 0 {
            assert(a =~= b);
        }
    } else if a[0] == b[0] {
        lemma_lex_total(a.drop_first(), b.drop_first());
        if a.drop_first() == b.drop_first() {
            assert(a =~= seq![a[0]] + a.drop_first());
            assert(b =~= seq![b[0]] + b.drop_first());
        }
    }
}

/// Byte order is transitive.
pub proof fn lemma_lex_transitive(a: Seq<u8>, b: Seq<u8>, c: Seq<u8>)
    requires
        lex_less(a, b),
        lex_less(b, c),
    ensures
        lex_less(a, c),
    decreases a.len(),
{
    if a.len() != 0 && a[0] == b[0] && b[0] == c[0] {
        lemma_lex_transitive(a.drop_first(), b.drop_first(), c.drop_first());
    }
}

/// Whether `a` comes before `b` in byte order.
pub fn bytes_less(a: &[u8], b: &[u8]) -> (r: bool)
    ensures
        r == lex_less(a@, b@),
{
    let mut i: usize = 0;
    assert(a@.skip(0) =~= a@ && b@.skip(0) =~= b@);
    while i < a.len() && i < b.len()
        invariant
            i <= a@.len(),
            i <= b@.len(),
            lex_less(a@, b@) == lex_less(a@.skip(i as int), b@.skip(i as int)),
        decreases a@.len() - i,
    {
        if a[i] != b[i] {
            return a[i] < b[i];
        }
        assert(a@.skip(i as int).drop_first() =~= a@.skip(i + 1));
        assert(b@.skip(i as int).drop_first() =~= b@.skip(i + 1));
        i += 1;
    }
    i < b.len()
}

/// Names in strictly ascending byte order.
pub open spec fn ascending(names: Seq<Seq<u8>>) -> bool {
    forall|i: int, j: int|
        0 <= i < j < names.len() ==> lex_less(#[trigger] names[i], #[trigger] names[j])
}

/// Whether `names` lists a set of names in byte order.
pub open spec fn lists(names: Seq<Seq<u8>>, set: Set<Seq<u8>>) -> bool {
    ascending(names) && names.to_set() == set
}

/// The names of a set in byte order.
pub open spec fn sorted_names(set: Set<Seq<u8>>) -> Seq<Seq<u8>> {
    choose|names: Seq<Seq<u8>>| lists(names, set)
}

/// Law: there is one way to list a set of names in order.
pub proof fn law_order_is_unique(a: Seq<Seq<u8>>, b: Seq<Seq<u8>>, set: Set<Seq<u8>>)
    requires
        lists(a, set),
        lists(b, set),
    ensures
        a == b,
    decreases a.len(),
{
    if a.len() == 0 || b.len() == 0 {
        if a.len() > 0 {
            assert(a.to_set().contains(a[0]));
            assert(b.to_set().contains(a[0]));
        }
        if b.len() > 0 {
            assert(b.to_set().contains(b[0]));
            assert(a.to_set().contains(b[0]));
        }
        assert(a =~= b);
    } else {
        let x = a.last();
        let y = b.last();
        assert(a.to_set().contains(x) && b.to_set().contains(y));
        assert(b.contains(x) && a.contains(y));
        let i = choose|i: int| 0 <= i < a.len() && a[i] == y;
        let j = choose|j: int| 0 <= j < b.len() && b[j] == x;
        assert(i < a.len() - 1 ==> lex_less(a[i], a[a.len() - 1]));
        assert(j < b.len() - 1 ==> lex_less(b[j], b[b.len() - 1]));
        lemma_lex_total(x, y);
        lemma_lex_total(y, x);
        assert(x == y);
        lemma_drop_last(a, set);
        lemma_drop_last(b, set);
        law_order_is_unique(a.drop_last(), b.drop_last(), set.remove(x));
        assert(a =~= a.drop_last().push(x));
        assert(b =~= b.drop_last().push(x));
    }
}

/// A finite set of names that is not empty has a greatest one.
proof fn lemma_greatest(set: Set<Seq<u8>>) -> (g: Seq<u8>)
    requires
        set.finite(),
        set.len() > 0,
    ensures
        set.contains(g),
        forall|n: Seq<u8>| #[trigger] set.contains(n) && n != g ==> lex_less(n, g),
    decreases set.len(),
{
    let c = set.choose();
    assert(set.contains(c));
    let rest = set.remove(c);
    if rest.len() == 0 {
        assert forall|n: Seq<u8>| #[trigger] set.contains(n) && n != c implies lex_less(n, c) by {
            assert(rest.contains(n));
        }
        c
    } else {
        let g = lemma_greatest(rest);
        lemma_lex_total(c, g);
        if lex_less(c, g) {
            assert forall|n: Seq<u8>| #[trigger] set.contains(n) && n != g implies lex_less(
                n,
                g,
            ) by {
                if n != c {
                    assert(rest.contains(n));
                }
            }
            g
        } else {
            assert forall|n: Seq<u8>| #[trigger] set.contains(n) && n != c implies lex_less(
                n,
                c,
            ) by {
                assert(rest.contains(n));
                if n != g {
                    lemma_lex_transitive(n, g, c);
                }
            }
            c
        }
    }
}

/// Law: every finite set of names is listed in order, so that a report names
/// every station once and in byte order.
pub proof fn law_order_exists(set: Set<Seq<u8>>)
    requires
        set.finite(),
    ensures
        lists(sorted_names(set), set),
    decreases set.len(),
{
    if set.len() == 0 {
        assert(Seq::<Seq<u8>>::empty().to_set() =~= set);
        assert(lists(Seq::empty(), set));
    } else {
        let g = lemma_greatest(set);
        let rest = set.remove(g);
        law_order_exists(rest);
        let front = sorted_names(rest);
        let names = front.push(g);
        assert forall|i: int, j: int| 0 <= i < j < names.len() implies lex_less(
            #[trigger] names[i],
            #[trigger] names[j],
        ) by {
            assert(names[i] == front[i]);
            if j == front.len() {
                assert(front.to_set().contains(front[i]));
                assert(set.contains(front[i]));
            } else {
                assert(names[j] == front[j]);
            }
        }
        front.lemma_push_to_set_commute(g);
        assert(names.to_set() =~= set);
        assert(lists(names, set));
    }
}

/// Without its last name a list lists the rest of the set.
proof fn lemma_drop_last(a: Seq<Seq<u8>>, set: Set<Seq<u8>>)
    requires
        lists(a, set),
        a.len() > 0,
    ensures
        lists(a.drop_last(), set.remove(a.last())),
{
    let d = a.drop_last();
    assert forall|n: Seq<u8>| d.to_set().contains(n) <==> set.remove(a.last()).contains(n) by {
        if d.contains(n) {
            let i = choose|i: int| 0 <= i < d.len() && d[i] == n;
            assert(a[i] == n);
            assert(a.contains(n));
            assert(a.to_set().contains(n));
            lemma_lex_total(a[i], a[a.len() - 1]);
        }
        if set.contains(n) && n != a.last() {
            assert(a.to_set().contains(n));
            let i = choose|i: int| 0 <= i < a.len() && a[i] == n;
            assert(d[i] == n);
        }
    }
    assert(d.to_set() =~= set.remove(a.last()));
}

/// The mean in tenths, rounded to the nearest and half-way cases up.
pub open spec fn mean(s: Stats) -> int {
    (2 * s.sum + s.count) / (2 * s.count)
}

/// Law: the mean is the tenth nearest to the exact mean, the greater one where
/// two are equally near.
pub proof fn law_mean_rounds_half_up(s: Stats)
    requires
        s.count >= 1,
    ensures
        2 * s.sum - s.count < 2 * s.count * mean(s) <= 2 * s.sum + s.count,
{
    let d = 2 * s.count;
    let x = 2 * s.sum + s.count;
    vstd::arithmetic::div_mod::lemma_fundamental_div_mod(x, d);
    vstd::arithmetic::div_mod::lemma_mod_bound(x, d);
}

/// Law: the mean lies between the minimum and the maximum.
pub proof fn law_mean_in_range(s: Stats)
    requires
        s.coherent(),
    ensures
        s.min <= mean(s) <= s.max,
{
    law_mean_rounds_half_up(s);
    let m = mean(s);
    if m < s.min {
        assert(2 * s.count * m <= 2 * (s.min * s.count) - 2 * s.count) by (nonlinear_arith)
            requires
                m <= s.min - 1,
                s.count >= 1,
        ;
    }
    if m > s.max {
        assert(2 * s.count * m >= 2 * (s.max * s.count) + 2 * s.count) by (nonlinear_arith)
            requires
                m >= s.max + 1,
                s.count >= 1,
        ;
    }
}

/// One station of the report: `Name=min/mean/max`.
pub open spec fn entry_text(name: Seq<u8>, s: Stats) -> Seq<u8> {
    name + seq![EQUALS] + temperature::tenths_text(s.min) + seq![SLASH] + temperature::tenths_text(
        mean(s),
    ) + seq![SLASH] + temperature::tenths_text(s.max)
}

/// The stations of the report, with a comma and a space between two of them.
pub open spec fn body_text(names: Seq<Seq<u8>>, m: Map<Seq<u8>, Stats>) -> Seq<u8>
    decreases names.len(),
{
    if names.len() == 0 {
        Seq::empty()
    } else {
        body_text(names.drop_last(), m) + (if names.len() == 1 {
            Seq::empty()
        } else {
            seq![COMMA, SPACE]
        }) + entry_text(names.last(), m[names.last()])
    }
}

/// The whole report.
pub open spec fn report_text(m: Map<Seq<u8>, Stats>) -> Seq<u8> {
    seq![OPEN] + body_text(sorted_names(m.dom()), m) + seq![CLOSE, NEWLINE]
}

pub const OPEN: u8 = 0x7B;

pub const CLOSE: u8 = 0x7D;

pub const EQUALS: u8 = 0x3D;

pub const SLASH: u8 = 0x2F;

pub const COMMA: u8 = 0x2C;

pub const SPACE: u8 = 0x20;

/// The mean of `count` readings that add up to `sum`, in exact integer
/// arithmetic: `floor(sum/count + 1/2) == floor((2*sum + count) / (2*count))`.
pub fn mean_tenths(sum: i64, count: u32) -> (r: i64)
    requires
        count >= 1,
        i64::MIN <= 2 * sum,
        2 * sum + count <= i64::MAX,
    ensures
        r == (2 * sum + count) / (2 * count as int),
{
    let n = 2 * sum + count as i64;
    let d = 2 * count as i64;
    proof {
        let q = n as int / d as int;
        vstd::arithmetic::div_mod::lemma_fundamental_div_mod(n as int, d as int);
        vstd::arithmetic::div_mod::lemma_mod_bound(n as int, d as int);
        assert(q >= 0 ==> q <= d * q) by (nonlinear_arith)
            requires
                d >= 2,
        ;
        assert(q < 0 ==> d * q <= 2 * q) by (nonlinear_arith)
            requires
                d >= 2,
        ;
    }
    match n.checked_div_euclid(d) {
        Some(q) => q,
        None => {
            assert(false);
            0
        },
    }
}

/// The names of a list of entries.
spec fn names_of(t: Table, es: Seq<Entry>) -> Seq<Seq<u8>> {
    es.map_values(|e: Entry| t.name_in(e))
}

/// Merges two lists of entries in byte order of their names.
fn merge_sorted(t: &Table, a: Vec<Entry>, b: Vec<Entry>) -> (r: Vec<Entry>)
    requires
        forall|i: int| 0 <= i < a@.len() ==> t.owns(#[trigger] a@[i]),
        forall|i: int| 0 <= i < b@.len() ==> t.owns(#[trigger] b@[i]),
        ascending(names_of(*t, a@)),
        ascending(names_of(*t, b@)),
        forall|i: int, j: int|
            0 <= i < a@.len() && 0 <= j < b@.len() ==> t.name_in(#[trigger] a@[i]) != t.name_in(
                #[trigger] b@[j],
            ),
    ensures
        ascending(names_of(*t, r@)),
        r@.to_set() == a@.to_set().union(b@.to_set()),
{
    let mut r: Vec<Entry> = Vec::with_capacity(a.len());
    let mut i: usize = 0;
    let mut j: usize = 0;
    let ghost (an, bn) = (names_of(*t, a@), names_of(*t, b@));
    assert(r@.to_set() =~= a@.take(0).to_set().union(b@.take(0).to_set()));
    while i < a.len() || j < b.len()
        invariant
            i <= a@.len(),
            j <= b@.len(),
            forall|i: int| 0 <= i < a@.len() ==> t.owns(#[trigger] a@[i]),
            forall|i: int| 0 <= i < b@.len() ==> t.owns(#[trigger] b@[i]),
            an == names_of(*t, a@),
            bn == names_of(*t, b@),
            ascending(an),
            ascending(bn),
            forall|i: int, j: int|
                0 <= i < a@.len() && 0 <= j < b@.len() ==> t.name_in(#[trigger] a@[i])
                    != t.name_in(#[trigger] b@[j]),
            ascending(names_of(*t, r@)),
            forall|k: int, x: int|
                0 <= k < r@.len() && i <= x < a@.len() ==> lex_less(
                    t.name_in(#[trigger] r@[k]),
                    #[trigger] an[x],
                ),
            forall|k: int, y: int|
                0 <= k < r@.len() && j <= y < b@.len() ==> lex_less(
                    t.name_in(#[trigger] r@[k]),
                    #[trigger] bn[y],
                ),
            r@.to_set() == a@.take(i as int).to_set().union(b@.take(j as int).to_set()),
        decreases a@.len() - i + b@.len() - j,
    {
        let ghost had = r@;
        let from_a = if i == a.len() {
            false
        } else if j == b.len() {
            true
        } else {
            proof {
                lemma_lex_total(an[i as int], bn[j as int]);
                assert(t.name_in(a@[i as int]) != t.name_in(b@[j as int]));
            }
            bytes_less(t.name_of(&a[i]), t.name_of(&b[j]))
        };
        if from_a {
            let e = a[i];
            r.push(e);
            proof {
                assert(an[i as int] == t.name_in(e));
                lemma_push_name(*t, had, e);
                had.lemma_push_to_set_commute(e);
                assert(a@.take(i + 1) =~= a@.take(i as int).push(e));
                a@.take(i as int).lemma_push_to_set_commute(e);
                assert(r@.to_set() =~= a@.take(i + 1).to_set().union(b@.take(j as int).to_set()));
                assert forall|k: int, y: int|
                    0 <= k < r@.len() && j <= y < b@.len() implies lex_less(
                    t.name_in(#[trigger] r@[k]),
                    #[trigger] bn[y],
                ) by {
                    if k == had.len() {
                        if y > j {
                            assert(lex_less(bn[j as int], bn[y]));
                            lemma_lex_transitive(an[i as int], bn[j as int], bn[y]);
                        }
                    } else {
                        assert(r@[k] == had[k]);
                    }
                }
                assert forall|k: int, x: int|
                    0 <= k < r@.len() && i + 1 <= x < a@.len() implies lex_less(
                    t.name_in(#[trigger] r@[k]),
                    #[trigger] an[x],
                ) by {
                    if k == had.len() {
                        assert(lex_less(an[i as int], an[x]));
                    } else {
                        assert(r@[k] == had[k]);
                    }
                }
            }
            i += 1;
        } else {
            let e = b[j];
            r.push(e);
            proof {
                assert(bn[j as int] == t.name_in(e));
                lemma_push_name(*t, had, e);
                had.lemma_push_to_set_commute(e);
                assert(b@.take(j + 1) =~= b@.take(j as int).push(e));
                b@.take(j as int).lemma_push_to_set_commute(e);
                assert(r@.to_set() =~= a@.take(i as int).to_set().union(b@.take(j + 1).to_set()));
                assert forall|k: int, x: int|
                    0 <= k < r@.len() && i <= x < a@.len() implies lex_less(
                    t.name_in(#[trigger] r@[k]),
                    #[trigger] an[x],
                ) by {
                    if k == had.len() {
                        if x > i {
                            assert(lex_less(an[i as int], an[x]));
                            lemma_lex_transitive(bn[j as int], an[i as int], an[x]);
                        }
                    } else {
                        assert(r@[k] == had[k]);
                    }
                }
                assert forall|k: int, y: int|
                    0 <= k < r@.len() && j + 1 <= y < b@.len() implies lex_less(
                    t.name_in(#[trigger] r@[k]),
                    #[trigger] bn[y],
                ) by {
                    if k == had.len() {
                        assert(lex_less(bn[j as int], bn[y]));
                    } else {
                        assert(r@[k] == had[k]);
                    }
                }
            }
            j += 1;
        }
    }
    assert(a@.take(a@.len() as int) =~= a@ && b@.take(b@.len() as int) =~= b@);
    r
}

/// A name after all others keeps a list in order.
proof fn lemma_push_name(t: Table, es: Seq<Entry>, e: Entry)
    requires
        ascending(names_of(t, es)),
        forall|k: int| 0 <= k < es.len() ==> lex_less(t.name_in(#[trigger] es[k]), t.name_in(e)),
    ensures
        ascending(names_of(t, es.push(e))),
{
    let old_names = names_of(t, es);
    let names = names_of(t, es.push(e));
    assert forall|i: int, j: int| 0 <= i < j < names.len() implies lex_less(
        #[trigger] names[i],
        #[trigger] names[j],
    ) by {
        assert(es.push(e)[i] == es[i]);
        assert(names[i] == old_names[i]);
        if j < es.len() {
            assert(names[j] == old_names[j]);
        }
    }
}

/// Sorts entries with distinct names by name.
fn sort_by_name(t: &Table, es: &[Entry]) -> (r: Vec<Entry>)
    requires
        forall|i: int| 0 <= i < es@.len() ==> t.owns(#[trigger] es@[i]),
        forall|i: int, j: int|
            0 <= i < j < es@.len() ==> t.name_in(#[trigger] es@[i]) != t.name_in(
                #[trigger] es@[j],
            ),
    ensures
        ascending(names_of(*t, r@)),
        r@.to_set() == es@.to_set(),
    decreases es@.len(),
{
    if es.len() < 2 {
        let mut r: Vec<Entry> = Vec::new();
        if es.len() == 1 {
            r.push(es[0]);
        }
        assert(r@ =~= es@);
        return r;
    }
    let mid = es.len() / 2;
    let left = &es[0..mid];
    let right = &es[mid..es.len()];
    let a = sort_by_name(t, left);
    let b = sort_by_name(t, right);
    proof {
        assert(es@ =~= left@ + right@);
        vstd::seq_lib::seq_to_set_distributes_over_add(left@, right@);
        assert forall|i: int| 0 <= i < a@.len() implies exists|x: int|
            0 <= x < mid && #[trigger] a@[i] == es@[x] by {
            assert(a@.to_set().contains(a@[i]));
            assert(left@.contains(a@[i]));
        }
        assert forall|i: int| 0 <= i < b@.len() implies exists|x: int|
            mid <= x < es@.len() && #[trigger] b@[i] == es@[x] by {
            assert(b@.to_set().contains(b@[i]));
            let y = choose|y: int| 0 <= y < right@.len() && right@[y] == b@[i];
            assert(es@[mid + y] == b@[i]);
        }
    }
    merge_sorted(t, a, b)
}

/// The entries of a table in byte order of their names.
fn sorted_entries(t: &Table) -> (es: Vec<Entry>)
    requires
        t.wf(),
    ensures
        forall|k: int|
            0 <= k < es@.len() ==> {
                &&& t.owns(#[trigger] es@[k])
                &&& t@.contains_key(t.name_in(es@[k]))
                &&& t@[t.name_in(es@[k])] == es@[k].stats()
            },
        names_of(*t, es@) == sorted_names(t@.dom()),
{
    proof {
        t.lemma_wf();
        t.lemma_entries();
    }
    let live = t.entries();
    let es = sort_by_name(t, live.as_slice());
    let ghost names = names_of(*t, es@);
    proof {
        assert forall|k: int| 0 <= k < es@.len() implies live@.contains(#[trigger] es@[k]) by {
            assert(es@.to_set().contains(es@[k]));
        }
        assert forall|n: Seq<u8>| names.to_set().contains(n) <==> t@.dom().contains(n) by {
            if names.contains(n) {
                let k = choose|k: int| 0 <= k < names.len() && names[k] == n;
                assert(live@.contains(es@[k]));
            }
            if t@.contains_key(n) {
                let k = choose|k: int| 0 <= k < live@.len() && t.name_in(#[trigger] live@[k]) == n;
                assert(live@.to_set().contains(live@[k]));
                assert(es@.contains(live@[k]));
                let x = choose|x: int| 0 <= x < es@.len() && es@[x] == live@[k];
                assert(names[x] == n);
            }
        }
        assert(names.to_set() =~= t@.dom());
        assert(lists(names, t@.dom()));
        law_order_is_unique(names, sorted_names(t@.dom()), t@.dom());
    }
    es
}

/// Appends one station of the report.
fn append_entry(out: &mut Vec<u8>, name: &[u8], e: &Entry)
    requires
        e.stats().coherent(),
    ensures
        final(out)@ == old(out)@ + entry_text(name@, e.stats()),
{
    let ghost s0 = out@;
    proof {
        table::lemma_sum_range(e.stats());
        law_mean_in_range(e.stats());
    }
    bytes::append(out, name);
    out.push(EQUALS);
    let ghost s1 = name@ + seq![EQUALS];
    assert(out@ =~= s0 + s1);
    temperature::fmt_tenths(out, e.min as i64);
    let ghost s2 = s1 + temperature::tenths_text(e.min as int);
    assert(out@ =~= s0 + s2);
    out.push(SLASH);
    let ghost s3 = s2 + seq![SLASH];
    assert(out@ =~= s0 + s3);
    temperature::fmt_tenths(out, mean_tenths(e.sum, e.count));
    let ghost s4 = s3 + temperature::tenths_text(mean(e.stats()));
    assert(out@ =~= s0 + s4);
    out.push(SLASH);
    let ghost s5 = s4 + seq![SLASH];
    assert(out@ =~= s0 + s5);
    temperature::fmt_tenths(out, e.max as i64);
    assert(out@ =~= s0 + (s5 + temperature::tenths_text(e.max as int)));
}

/// Builds the report of a table: `{Name=min/mean/max, ...}` and a newline.
pub fn report(t: &Table) -> (out: Vec<u8>)
    requires
        t.wf(),
    ensures
        out@ == report_text(t@),
{
    let es = sorted_entries(t);
    let ghost names = names_of(*t, es@);
    proof {
        t.lemma_wf();
    }
    let mut out: Vec<u8> = Vec::new();
    out.push(OPEN);
    let mut i: usize = 0;
    assert(out@ =~= seq![OPEN] + body_text(names.take(0), t@));
    while i < es.len()
        invariant
            i <= es@.len(),
            model::all_coherent(t@),
            names == names_of(*t, es@),
            forall|k: int|
                0 <= k < es@.len() ==> {
                    &&& t.owns(#[trigger] es@[k])
                    &&& t@.contains_key(t.name_in(es@[k]))
                    &&& t@[t.name_in(es@[k])] == es@[k].stats()
                },
            out@ == seq![OPEN] + body_text(names.take(i as int), t@),
        decreases es@.len() - i,
    {
        let e = es[i];
        let ghost body = body_text(names.take(i as int), t@);
        let ghost sep = if i == 0 {
            Seq::<u8>::empty()
        } else {
            seq![COMMA, SPACE]
        };
        if i != 0 {
            out.push(COMMA);
            out.push(SPACE);
        }
        assert(out@ =~= seq![OPEN] + (body + sep));
        append_entry(&mut out, t.name_of(&e), &e);
        proof {
            let text = entry_text(t.name_in(e), e.stats());
            let part = names.take(i + 1);
            assert(part.drop_last() =~= names.take(i as int));
            assert(part.last() == t.name_in(e));
            assert(out@ =~= seq![OPEN] + (body + sep + text));
            assert(body_text(part, t@) == body + sep + text);
        }
        i += 1;
    }
    out.push(CLOSE);
    out.push(NEWLINE);
    proof {
        assert(names.take(es@.len() as int) =~= names);
        assert(out@ =~= seq![OPEN] + body_text(names, t@) + seq![CLOSE, NEWLINE]);
    }
    out
}

/// The place of the first difference decides.
proof fn lemma_lex_at(a: Seq<u8>, b: Seq<u8>, k: int)
    requires
        0 <= k <= a.len(),
        k < b.len(),
        a.take(k) == b.take(k),
        k == a.len() || a[k] < b[k],
    ensures
        lex_less(a, b),
    decreases k,
{
    if k > 0 {
        assert(a.take(k)[0] == a[0] && b.take(k)[0] == b[0]);
        let (x, y) = (a.drop_first(), b.drop_first());
        assert(x.take(k - 1) =~= a.take(k).drop_first());
        assert(y.take(k - 1) =~= b.take(k).drop_first());
        lemma_lex_at(x, y, k - 1);
    }
}

/// Where one string comes before another there is such a place.
proof fn lemma_lex_place(a: Seq<u8>, b: Seq<u8>) -> (k: int)
    requires
        lex_less(a, b),
    ensures
        0 <= k <= a.len(),
        k < b.len(),
        a.take(k) == b.take(k),
        k == a.len() || a[k] < b[k],
    decreases a.len(),
{
    if a.len() == 0 || a[0] != b[0] {
        assert(a.take(0) =~= b.take(0));
        0
    } else {
        let k = lemma_lex_place(a.drop_first(), b.drop_first());
        assert(a.take(k + 1) =~= seq![a[0]] + a.drop_first().take(k));
        assert(b.take(k + 1) =~= seq![b[0]] + b.drop_first().take(k));
        k + 1
    }
}

/// Law: one name comes before another if and only if they agree on their first
/// `k` bytes, for some `k`, and then the one ends and the other goes on, or the
/// next byte of the one is less than that of the other.
pub proof fn law_byte_order(a: Seq<u8>, b: Seq<u8>)
    ensures
        lex_less(a, b) <==> exists|k: int|
            {
                &&& 0 <= k <= a.len()
                &&& k < b.len()
                &&& #[trigger] a.take(k) == b.take(k)
                &&& k == a.len() || a[k] < b[k]
            },
{
    if lex_less(a, b) {
        let k = lemma_lex_place(a, b);
        assert(a.take(k) == b.take(k));
    }
    if exists|k: int|
        {
            &&& 0 <= k <= a.len()
            &&& k < b.len()
            &&& #[trigger] a.take(k) == b.take(k)
            &&& k == a.len() || a[k] < b[k]
        } {
        let k = choose|k: int|
            {
                &&& 0 <= k <= a.len()
                &&& k < b.len()
                &&& #[trigger] a.take(k) == b.take(k)
                &&& k == a.len() || a[k] < b[k]
            };
        lemma_lex_at(a, b, k);
    }
}

/// Law: the names of a set are listed each once and each before those that
/// come after it in byte order.
pub proof fn law_sorted_names(set: Set<Seq<u8>>)
    requires
        set.finite(),
    ensures
        ({
            let names = sorted_names(set);
            &&& names.len() == set.len()
            &&& forall|n: Seq<u8>| #[trigger] set.contains(n) <==> names.contains(n)
            &&& forall|i: int, j: int|
                0 <= i < j < names.len() ==> lex_less(#[trigger] names[i], #[trigger] names[j])
        }),
{
    law_order_exists(set);
    let names = sorted_names(set);
    assert(names.no_duplicates()) by {
        assert forall|i: int, j: int| 0 <= i < names.len() && 0 <= j < names.len() && i
            != j implies names[i] != names[j] by {
            if i < j {
                lemma_lex_total(names[i], names[j]);
            } else {
                lemma_lex_total(names[j], names[i]);
            }
        }
    }
    names.unique_seq_to_set();
    assert forall|n: Seq<u8>| #[trigger] set.contains(n) <==> names.contains(n) by {
        assert(names.to_set().contains(n) <==> names.contains(n));
    }
}

/// There is no `/` in the text of tenths.
proof fn lemma_no_slash(tenths: int, rest: Seq<u8>)
    ensures
        ({
            let t = temperature::tenths_text(tenths);
            &&& bytes::find(t, 0x2F) == t.len()
            &&& bytes::find(t + seq![0x2Fu8] + rest, 0x2F) == t.len()
        }),
{
    let t = temperature::tenths_text(tenths);
    let n = t.len() as int;
    laws::law_text_shape(tenths);
    assert forall|i: int| 0 <= i < n implies t[i] != 0x2F by {
        if i == 0 && tenths < 0 {
            assert(t[0] == 0x2D);
        } else if i != n - 2 {
            assert(0x30 <= t[i] <= 0x39);
        }
    }
    bytes::lemma_find_is(t, 0x2F, n);
    let u = t + seq![0x2Fu8] + rest;
    assert forall|i: int| 0 <= i < n implies u[i] != 0x2F by {
        assert(u[i] == t[i]);
    }
    bytes::lemma_find_is(u, 0x2F, n);
}

/// Law: the text of a station reads back. Behind the name and a `=`, split at
/// `/`, come the texts of the minimum, the mean and the maximum, in ascending
/// order; and where these are temperatures of at most 99.9 degrees either way
/// they are read as such.
pub proof fn law_entry_reads_back(name: Seq<u8>, s: Stats)
    requires
        s.coherent(),
    ensures
        ({
            let text = entry_text(name, s);
            let n = name.len() as int;
            let one = text.skip(n + 1);
            let two = one.skip(bytes::find(one, 0x2F) + 1);
            let three = two.skip(bytes::find(two, 0x2F) + 1);
            let min = one.take(bytes::find(one, 0x2F));
            let mid = two.take(bytes::find(two, 0x2F));
            &&& text.len() > n
            &&& text.take(n) == name
            &&& text[n] == 0x3D
            &&& bytes::find(one, 0x2F) < one.len()
            &&& bytes::find(two, 0x2F) < two.len()
            &&& bytes::find(three, 0x2F) == three.len()
            &&& min == temperature::tenths_text(s.min)
            &&& mid == temperature::tenths_text(mean(s))
            &&& three == temperature::tenths_text(s.max)
            &&& s.min <= mean(s) <= s.max
            &&& -999 <= s.min && s.max <= 999 ==> {
                &&& temperature::is_temp(min) && temperature::temp_value(min) == s.min
                &&& temperature::is_temp(mid) && temperature::temp_value(mid) == mean(s)
                &&& temperature::is_temp(three) && temperature::temp_value(three) == s.max
            }
        }),
{
    let text = entry_text(name, s);
    let n = name.len() as int;
    let (a, b, c) = (
        temperature::tenths_text(s.min),
        temperature::tenths_text(mean(s)),
        temperature::tenths_text(s.max),
    );
    let two = b + seq![0x2Fu8] + c;
    let one = a + seq![0x2Fu8] + two;
    assert(text =~= name + seq![0x3Du8] + one);
    assert(text.take(n) =~= name);
    assert(text.skip(n + 1) =~= one);
    lemma_no_slash(s.min, two);
    assert(one.skip(a.len() + 1int) =~= two);
    assert(one.take(a.len() as int) =~= a);
    lemma_no_slash(mean(s), c);
    assert(two.skip(b.len() + 1int) =~= c);
    assert(two.take(b.len() as int) =~= b);
    lemma_no_slash(s.max, Seq::empty());
    law_mean_in_range(s);
    if -999 <= s.min && s.max <= 999 {
        temperature::law_text_round_trip(s.min);
        temperature::law_text_round_trip(mean(s));
        temperature::law_text_round_trip(s.max);
    }
}

/// Law: no stations make no text, and one more station adds a comma and a
/// space, if it is not the first, and its own text, whatever that is.
pub proof fn law_one_more_station(names: Seq<Seq<u8>>, x: Seq<u8>, m: Map<Seq<u8>, Stats>)
    ensures
        body_text(Seq::empty(), m) == Seq::<u8>::empty(),
        body_text(names.push(x), m) == body_text(names, m) + (if names.len() == 0 {
            Seq::empty()
        } else {
            seq![0x2Cu8, 0x20]
        }) + entry_text(x, m[x]),
{
    let all = names.push(x);
    assert(all.drop_last() =~= names);
    assert(all.last() == x);
}

/// What is printed of the first stations stays as more are printed.
proof fn lemma_body_prefix(names: Seq<Seq<u8>>, m: Map<Seq<u8>, Stats>, i: int)
    requires
        0 <= i <= names.len(),
    ensures
        ({
            let part = body_text(names.take(i), m);
            let whole = body_text(names, m);
            &&& part.len() <= whole.len()
            &&& whole.take(part.len() as int) == part
            &&& i == names.len() ==> whole == part
            &&& 0 < i < names.len() ==> whole.len() > part.len() && whole[part.len() as int] == 0x2C
        }),
    decreases names.len(),
{
    let part = body_text(names.take(i), m);
    let whole = body_text(names, m);
    if i == names.len() {
        assert(names.take(i) =~= names);
        assert(whole.take(part.len() as int) =~= part);
    } else {
        let front = names.drop_last();
        lemma_body_prefix(front, m, i);
        assert(front.take(i) =~= names.take(i));
        let mid = body_text(front, m);
        assert(front.push(names.last()) =~= names);
        law_one_more_station(front, names.last(), m);
        assert(whole.take(mid.len() as int) =~= mid);
        assert(whole.take(part.len() as int) =~= mid.take(part.len() as int));
        if i > 0 {
            if i < front.len() {
                assert(whole[part.len() as int] == mid[part.len() as int]);
            } else {
                assert(mid == part);
                assert(whole[part.len() as int] == 0x2C);
            }
        }
    }
}

/// Law: a report is a `{`, the stations in byte order, a `}` and a newline.
/// Every station stands in it, behind those that come before it, between the
/// braces or commas and spaces.
pub proof fn law_station_in_report(m: Map<Seq<u8>, Stats>, i: int)
    requires
        m.dom().finite(),
        0 <= i < m.dom().len(),
    ensures
        ({
            let names = sorted_names(m.dom());
            let out = report_text(m);
            let before = body_text(names.take(i), m);
            let text = entry_text(names[i], m[names[i]]);
            let at: int = if i == 0 {
                1
            } else {
                before.len() + 3int
            };
            let end = at + text.len();
            &&& end < out.len()
            &&& out[0] == 0x7B
            &&& out.subrange(1, 1int + before.len()) == before
            &&& i > 0 ==> out[at - 2] == 0x2C && out[at - 1] == 0x20
            &&& out.subrange(at, end) == text
            &&& i < names.len() - 1 ==> out[end] == 0x2C
            &&& i == names.len() - 1 ==> out[end] == 0x7D && out[end + 1] == 0x0A && out.len()
                == end + 2
        }),
{
    let names = sorted_names(m.dom());
    law_sorted_names(m.dom());
    let out = report_text(m);
    let body = body_text(names, m);
    let before = body_text(names.take(i), m);
    let part = body_text(names.take(i + 1), m);
    let text = entry_text(names[i], m[names[i]]);
    lemma_body_prefix(names, m, i);
    lemma_body_prefix(names, m, i + 1);
    assert(names.take(i + 1) =~= names.take(i).push(names[i]));
    law_one_more_station(names.take(i), names[i], m);
    if i == 0 {
        assert(names.take(0) =~= Seq::empty());
        law_one_more_station(Seq::empty(), names[0], m);
    }
    let at: int = if i == 0 {
        1
    } else {
        before.len() + 3int
    };
    let end = at + text.len();
    assert(part.len() == end - 1);
    assert(out =~= seq![0x7Bu8] + body + seq![0x7Du8, 0x0A]);
    assert forall|k: int| 0 <= k < part.len() implies out[k + 1] == part[k] by {
        assert(body.take(part.len() as int)[k] == body[k]);
    }
    assert forall|k: int| 0 <= k < before.len() implies out[k + 1] == before[k] by {
        assert(part[k] == before[k]);
    }
    assert(out.subrange(1, 1int + before.len()) =~= before);
    assert forall|k: int| 0 <= k < text.len() implies out[at + k] == text[k] by {
        let j = at - 1 + k;
        assert(part[j] == text[k]);
        assert(out[j + 1] == part[j]);
    }
    assert(out.subrange(at, end) =~= text);
    if i > 0 {
        assert(part[at - 3] == 0x2C && part[at - 2] == 0x20);
    }
    if i < names.len() - 1 {
        assert(out[end] == body[part.len() as int]);
    }
}

/// Law: the report of no stations is `{}` and a newline.
pub proof fn law_empty_report()
    ensures
        report_text(Map::empty()) == seq![0x7Bu8, 0x7D, 0x0A],
{
    law_sorted_names(Set::empty());
    let m = Map::<Seq<u8>, Stats>::empty();
    assert(m.dom() =~= Set::empty());
    assert(sorted_names(m.dom()) =~= Seq::empty());
    assert(report_text(m) =~= seq![0x7Bu8, 0x7D, 0x0A]);
}

} // verus!
