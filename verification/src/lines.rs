//! `station;temperature` lines.

use vstd::prelude::*;

use crate::bytes;
use crate::bytes::{NEWLINE, SEMICOLON};
use crate::hash;
use crate::model;
use crate::model::Reading;
use crate::table::{Entry, Table};
use crate::temperature;

verus! {

/// Bytes that have to be at hand for a line to be read without looking at the
/// bounds: a name, the `;`, a temperature and the newline, with slack so that
/// eight-byte reads stay inside.
pub const MAX_LINE: usize = 128;

/// The first line of `data`, without its newline.
pub open spec fn first_line(data: Seq<u8>) -> Seq<u8> {
    data.take(bytes::find(data, NEWLINE))
}

/// Bytes that the first line of `data` takes, its newline included if it has
/// one.
pub open spec fn first_line_len(data: Seq<u8>) -> int {
    let n = bytes::find(data, NEWLINE);
    if n < data.len() {
        n + 1
    } else {
        n
    }
}

/// The lines of `data` that start before offset `limit`.
pub open spec fn lines(data: Seq<u8>, limit: int) -> Seq<Seq<u8>>
    decreases data.len(),
{
    if data.len() == 0 || limit <= 0 {
        Seq::empty()
    } else {
        proof {
            lemma_first_line_len(data);
        }
        seq![first_line(data)] + lines(
            data.skip(first_line_len(data)),
            limit - first_line_len(data),
        )
    }
}

/// Every line takes at least one byte.
pub proof fn lemma_first_line_len(data: Seq<u8>)
    ensures
        data.len() > 0 ==> 1 <= first_line_len(data),
        0 <= first_line_len(data) <= data.len(),
        first_line(data).len() <= first_line_len(data),
{
    bytes::lemma_find(data, NEWLINE);
}

/// The station name of a line, all of it if there is no `;`.
pub open spec fn line_name(line: Seq<u8>) -> Seq<u8> {
    line.take(bytes::find(line, SEMICOLON))
}

/// What follows the `;` of a line.
pub open spec fn line_value(line: Seq<u8>) -> Seq<u8> {
    line.skip(bytes::find(line, SEMICOLON) + 1)
}

/// The reading that a line stands for.
pub open spec fn line_reading(line: Seq<u8>) -> Reading {
    Reading { name: line_name(line), tenths: temperature::temp_value(line_value(line)) }
}

/// Whether a line has a `;` and a temperature can be read after it.
pub open spec fn line_readable(line: Seq<u8>) -> bool {
    bytes::find(line, SEMICOLON) < line.len() && temperature::readable(line_value(line))
}

/// Whether a line is a name, a `;` and a temperature, and the look-ahead is
/// enough for it and its newline.
pub open spec fn is_line(line: Seq<u8>) -> bool {
    &&& bytes::find(line, SEMICOLON) < line.len()
    &&& line.len() < MAX_LINE
    &&& temperature::is_temp(line_value(line))
}

/// What is read where `data` starts, by its `;` and the point after it alone:
/// the reading, and the bytes that it takes up to and including the one that
/// should be a newline. Bytes past the end of `data` count as zeros. Nothing
/// if there is no `;` or no point.
pub open spec fn fast_line(data: Seq<u8>) -> Option<(Reading, int)> {
    let k = bytes::find(data, SEMICOLON);
    let word = temperature::word_bytes(bytes::le_word(data.skip(k + 1)));
    let p = temperature::point(word);
    if k < data.len() && p <= 3 {
        Some((Reading { name: data.take(k), tenths: temperature::word_value(word) }, k + p + 4))
    } else {
        None
    }
}

/// A proper line that is at hand is read as its reading, newline and all.
pub proof fn lemma_fast_line(data: Seq<u8>)
    requires
        is_line(first_line(data)),
        bytes::find(data, NEWLINE) < data.len(),
    ensures
        fast_line(data) == Some((line_reading(first_line(data)), first_line_len(data))),
{
    let line = first_line(data);
    let k = bytes::find(line, SEMICOLON);
    let value = line_value(line);
    bytes::lemma_find(data, NEWLINE);
    bytes::lemma_find(line, SEMICOLON);
    assert forall|i: int| 0 <= i < k implies data[i] != SEMICOLON by {
        assert(line[i] == data[i]);
    }
    assert(line[k] == data[k]);
    bytes::lemma_find_is(data, SEMICOLON, k);
    assert(data.take(k) =~= line_name(line));
    let here = data.skip(k + 1);
    let b = temperature::word_bytes(bytes::le_word(here));
    temperature::lemma_word_bytes(here);
    assert forall|i: int| 0 <= i < value.len() implies b[i] == value[i] by {
        assert(b[i] == bytes::byte_at(here, i));
        assert(value[i] == line[k + 1 + i]);
        assert(line[k + 1 + i] == data[k + 1 + i]);
    }
    assert(b.take(value.len() as int) =~= value);
    temperature::lemma_temp_extended(value, b);
    temperature::lemma_word_value(b);
}

/// The readings of lines.
pub open spec fn readings(ls: Seq<Seq<u8>>) -> Seq<Reading> {
    ls.map_values(|line: Seq<u8>| line_reading(line))
}

/// A proper line can be read and holds an `i16`.
pub proof fn lemma_is_line(line: Seq<u8>)
    requires
        is_line(line),
    ensures
        line_readable(line),
        -999 <= line_reading(line).tenths <= 999,
{
    bytes::lemma_find(line, SEMICOLON);
    temperature::law_temp_range(line_value(line));
}

/// What an input may hold: a named station and a temperature of at most 99.9
/// degrees either way.
pub open spec fn valid(r: Reading) -> bool {
    &&& 1 <= r.name.len() <= 100
    &&& !r.name.contains(SEMICOLON)
    &&& !r.name.contains(NEWLINE)
    &&& -999 <= r.tenths <= 999
}

/// The line of a reading.
pub open spec fn line_text(r: Reading) -> Seq<u8> {
    r.name + seq![SEMICOLON] + temperature::tenths_text(r.tenths)
}

/// A file of readings, one line each.
pub open spec fn file_text(rs: Seq<Reading>) -> Seq<u8>
    decreases rs.len(),
{
    if rs.len() == 0 {
        Seq::empty()
    } else {
        line_text(rs[0]) + seq![NEWLINE] + file_text(rs.drop_first())
    }
}

/// Law: the line of a valid reading is proper and read as that reading.
pub proof fn law_line_round_trip(r: Reading)
    requires
        valid(r),
    ensures
        is_line(line_text(r)),
        line_reading(line_text(r)) == r,
{
    let line = line_text(r);
    let k = r.name.len() as int;
    assert forall|i: int| 0 <= i < k implies line[i] != SEMICOLON by {
        assert(r.name.contains(r.name[i]));
    }
    assert(line[k] == SEMICOLON);
    bytes::lemma_find_is(line, SEMICOLON, k);
    assert(line_name(line) =~= r.name);
    assert(line_value(line) =~= temperature::tenths_text(r.tenths));
    temperature::law_text_round_trip(r.tenths);
}

/// Law: the lines of a file of valid readings are the lines of these readings,
/// with or without a newline at the end of the file.
pub proof fn law_lines_of_file(rs: Seq<Reading>)
    requires
        forall|i: int| 0 <= i < rs.len() ==> valid(#[trigger] rs[i]),
    ensures
        ({
            let file = file_text(rs);
            let texts = rs.map_values(|r: Reading| line_text(r));
            &&& lines(file, file.len() as int) == texts
            &&& rs.len() > 0 ==> file.len() > 0 && lines(file.drop_last(), file.len() - 1) == texts
        }),
    decreases rs.len(),
{
    let file = file_text(rs);
    let texts = rs.map_values(|r: Reading| line_text(r));
    if rs.len() == 0 {
        assert(lines(file, 0) =~= texts);
    } else {
        let r = rs[0];
        let line = line_text(r);
        let more = rs.drop_first();
        let rest = file_text(more);
        let n = line.len() as int;
        assert forall|i: int| 0 <= i < more.len() implies valid(#[trigger] more[i]) by {
            assert(more[i] == rs[i + 1]);
        }
        law_lines_of_file(more);
        lemma_one_line(r);
        assert(texts =~= seq![line] + more.map_values(|r: Reading| line_text(r)));
        // The whole file.
        assert forall|i: int| 0 <= i < n implies file[i] != NEWLINE by {
            assert(file[i] == line[i]);
        }
        assert(file[n] == NEWLINE);
        bytes::lemma_find_is(file, NEWLINE, n);
        assert(first_line(file) =~= line);
        assert(file.skip(n + 1) =~= rest);
        // The file without its last newline.
        let cut = file.drop_last();
        assert forall|i: int| 0 <= i < n implies cut[i] != NEWLINE by {
            assert(cut[i] == line[i]);
        }
        if more.len() == 0 {
            assert(cut =~= line);
            bytes::lemma_find_is(cut, NEWLINE, n);
            assert(first_line(cut) =~= line);
            assert(lines(cut.skip(n), 0) =~= Seq::empty());
        } else {
            assert(cut[n] == NEWLINE);
            bytes::lemma_find_is(cut, NEWLINE, n);
            assert(first_line(cut) =~= line);
            assert(cut.skip(n + 1) =~= rest.drop_last());
        }
    }
}

/// There is no newline in the line of a valid reading.
proof fn lemma_one_line(r: Reading)
    requires
        valid(r),
    ensures
        line_text(r).len() > 0,
        forall|i: int| 0 <= i < line_text(r).len() ==> #[trigger] line_text(r)[i] != NEWLINE,
{
    let line = line_text(r);
    let value = temperature::tenths_text(r.tenths);
    let k = r.name.len() as int;
    temperature::law_text_round_trip(r.tenths);
    assert forall|i: int| 0 <= i < line.len() implies #[trigger] line[i] != NEWLINE by {
        if i < k {
            assert(r.name.contains(r.name[i]));
        } else if i > k {
            let j = i - k - 1;
            assert(line[i] == value[j]);
            assert(j == 0 || j == 1 || j == 2 || j == 3 || j == 4);
        }
    }
}

/// Whether a line has a `;` and a temperature can be read after it.
pub fn check_readable(line: &[u8]) -> (r: bool)
    ensures
        r == line_readable(line@),
{
    let semi = bytes::position(line, SEMICOLON);
    if semi == line.len() {
        return false;
    }
    let value = &line[semi + 1..line.len()];
    assert(value@ =~= line_value(line@));
    temperature::check_value(value)
}

/// Records the reading of a line, byte by byte, for the tail of a file where
/// the look-ahead is missing. Returns whether the table has room for it.
#[inline]
pub fn process_line_slow(line: &[u8], table: &mut Table) -> (r: bool)
    requires
        line_readable(line@),
        old(table).wf(),
    ensures
        final(table).wf(),
        final(table).keeps_names(*old(table)),
        r == model::fits(model::absorb(old(table)@, line_reading(line@))),
        final(table)@ == if r {
            model::absorb(old(table)@, line_reading(line@))
        } else {
            old(table)@
        },
        ({
            let name = line_name(line@);
            let h = hash::name_hash(name);
            let one = Entry::of(line_reading(line@).tenths as i16);
            if old(table).takes(name, h, one) {
                final(table).folds(*old(table), name, h, one)
            } else {
                *final(table) == *old(table)
            }
        }),
{
    let semi = bytes::position(line, SEMICOLON);
    assert(line@.len() == line.len());
    let name = &line[0..semi];
    let value = &line[semi + 1..line.len()];
    assert(name@ =~= line_name(line@));
    assert(value@ =~= line_value(line@));
    let val = temperature::parse_temp(value);
    let h = hash::hash_name(name);
    table.try_record(name, h, val)
}

/// Reads the line at `start` in one pass: finds the `;` and hashes the name
/// eight bytes at a time, then parses the value without a branch. Returns the
/// position of the `;`, the hash, the value, and the bytes from behind the `;`
/// up to and including the one that should be a newline; or nothing if there
/// is no `;` or no point.
#[inline]
pub fn take_line(buf: &[u8], start: usize) -> (r: Option<(usize, u64, i16, usize)>)
    requires
        start <= buf@.len(),
    ensures
        ({
            let data = buf@.skip(start as int);
            match r {
                Some((end, h, val, adv)) => {
                    &&& start <= end < buf@.len()
                    &&& adv <= 6
                    &&& h == hash::name_hash(buf@.subrange(start as int, end as int))
                    &&& fast_line(data) == Some(
                        (
                            Reading {
                                name: buf@.subrange(start as int, end as int),
                                tenths: val as int,
                            },
                            end - start + 1 + adv,
                        ),
                    )
                },
                None => fast_line(data) is None,
            }
        }),
{
    let ghost data = buf@.skip(start as int);
    proof {
        bytes::lemma_find(data, SEMICOLON);
    }
    let (end, h) = match hash::scan_name(buf, start) {
        Some(x) => x,
        None => {
            return None;
        },
    };
    assert(buf@.len() == buf.len());
    assert(data.take(end - start) =~= buf@.subrange(start as int, end as int));
    assert(data.skip(end - start + 1) =~= buf@.skip(end + 1));
    let word = bytes::load_word(buf, end + 1);
    proof {
        temperature::lemma_point(word);
    }
    if !word & 0x1010_1000 == 0 {
        return None;
    }
    let (val, adv) = temperature::parse_num(word);
    Some((end, h, val as i16, adv))
}

/// Law: a text without a newline, a newline and more text are one line and the
/// lines of the rest; a text without a newline is one line, if it is not
/// empty; and only lines that start before the limit count.
pub proof fn law_lines(line: Seq<u8>, rest: Seq<u8>, limit: int)
    requires
        forall|i: int| 0 <= i < line.len() ==> line[i] != 0x0A,
    ensures
        lines(line + seq![0x0Au8] + rest, limit) == if limit > 0 {
            seq![line] + lines(rest, limit - line.len() - 1)
        } else {
            Seq::empty()
        },
        lines(line, limit) == if limit > 0 && line.len() > 0 {
            seq![line]
        } else {
            Seq::empty()
        },
{
    let data = line + seq![0x0Au8] + rest;
    let n = line.len() as int;
    assert forall|i: int| 0 <= i < n implies data[i] != NEWLINE by {
        assert(data[i] == line[i]);
    }
    assert(data[n] == NEWLINE);
    bytes::lemma_find_is(data, NEWLINE, n);
    assert(first_line(data) =~= line);
    assert(data.skip(n + 1) =~= rest);
    bytes::lemma_find_is(line, NEWLINE, n);
    assert(first_line(line) =~= line);
    assert(lines(line.skip(n), limit - n) =~= Seq::empty());
    assert(lines(line, limit) =~= if limit > 0 && line.len() > 0 {
        seq![line]
    } else {
        Seq::empty()
    });
}

/// Law: what stands before the first `;` of a line is its name, and what
/// stands behind it its value, which is what a line is read by.
pub proof fn law_line_parts(name: Seq<u8>, value: Seq<u8>)
    requires
        forall|i: int| 0 <= i < name.len() ==> name[i] != 0x3B,
    ensures
        ({
            let line = name + seq![0x3Bu8] + value;
            &&& line_name(line) == name
            &&& line_value(line) == value
            &&& line_reading(line).name == name
            &&& line_reading(line).tenths == temperature::temp_value(value)
            &&& line_readable(line) <==> temperature::readable(value)
            &&& is_line(line) <==> line.len() < 128 && temperature::is_temp(value)
            &&& !line_readable(name)
            &&& !is_line(name)
        }),
{
    let line = name + seq![0x3Bu8] + value;
    let k = name.len() as int;
    assert forall|i: int| 0 <= i < k implies line[i] != SEMICOLON by {
        assert(line[i] == name[i]);
    }
    assert(line[k] == SEMICOLON);
    bytes::lemma_find_is(line, SEMICOLON, k);
    bytes::lemma_find_is(name, SEMICOLON, k);
    assert(line_name(line) =~= name);
    assert(line_value(line) =~= value);
}

/// Law: with the look-ahead at hand, what stands before the first `;` is the
/// name, and the word behind it, padded with zeros, gives the value and where
/// the next line starts: two bytes past the digit behind the point.
pub proof fn law_fast_line(name: Seq<u8>, more: Seq<u8>)
    requires
        forall|i: int| 0 <= i < name.len() ==> name[i] != 0x3B,
    ensures
        ({
            let word = Seq::new(
                8,
                |i: int|
                    if i < more.len() {
                        more[i]
                    } else {
                        0
                    },
            );
            let p = temperature::point(word);
            &&& fast_line(name + seq![0x3Bu8] + more) == if p <= 3 {
                Some(
                    (
                        Reading { name, tenths: temperature::word_value(word) },
                        name.len() + 1 + p + 3,
                    ),
                )
            } else {
                None
            }
            &&& fast_line(name) is None
        }),
{
    let data = name + seq![0x3Bu8] + more;
    let k = name.len() as int;
    assert forall|i: int| 0 <= i < k implies data[i] != SEMICOLON by {
        assert(data[i] == name[i]);
    }
    assert(data[k] == SEMICOLON);
    bytes::lemma_find_is(data, SEMICOLON, k);
    bytes::lemma_find_is(name, SEMICOLON, k);
    assert(data.take(k) =~= name);
    assert(data.skip(k + 1) =~= more);
    temperature::lemma_word_bytes(more);
    let word = Seq::new(
        8,
        |i: int|
            if i < more.len() {
                more[i]
            } else {
                0
            },
    );
    assert(temperature::word_bytes(bytes::le_word(more)) =~= word);
}

/// Law: the readings of lines are the readings of each of them, in order.
pub proof fn law_readings(ls: Seq<Seq<u8>>)
    ensures
        readings(ls).len() == ls.len(),
        forall|i: int| 0 <= i < ls.len() ==> #[trigger] readings(ls)[i] == line_reading(ls[i]),
{
}

/// Law: a file of readings is the line of each, one behind the other, each with
/// a newline behind it.
pub proof fn law_file_text(rs: Seq<Reading>, r: Reading)
    ensures
        file_text(Seq::empty()) == Seq::<u8>::empty(),
        file_text(rs.push(r)) == file_text(rs) + r.name + seq![0x3Bu8]
            + temperature::tenths_text(r.tenths) + seq![0x0Au8],
    decreases rs.len(),
{
    let all = rs.push(r);
    if rs.len() == 0 {
        assert(all.drop_first() =~= Seq::empty());
        assert(file_text(all.drop_first()) =~= Seq::empty());
    } else {
        assert(all.drop_first() =~= rs.drop_first().push(r));
        law_file_text(rs.drop_first(), r);
    }
    assert(file_text(all) =~= file_text(rs) + r.name + seq![0x3Bu8] + temperature::tenths_text(
        r.tenths,
    ) + seq![0x0Au8]);
}

} // verus!
