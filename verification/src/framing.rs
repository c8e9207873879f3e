//! Records in a file of bytes, one to a line.
//!
//! A record is a line that is not blank, ended by a newline. Bytes after the
//! last newline are a torn record: one a writer has not finished.

use vstd::prelude::*;

verus! {

/// The byte a line ends with.
pub const NEWLINE: u8 = 10;

/// Whether `b` is ASCII white space.
pub open spec fn is_space(b: u8) -> bool {
    b == 9 || b == 10 || b == 12 || b == 13 || b == 32
}

/// Whether `bytes` are white space alone, or none.
pub open spec fn is_blank_line(bytes: Seq<u8>) -> bool {
    forall|i: int| 0 <= i < bytes.len() ==> is_space(#[trigger] bytes[i])
}

/// Whether `bytes` are a record: not blank, and no newline among them.
pub open spec fn is_record(bytes: Seq<u8>) -> bool {
    !is_blank_line(bytes) && !bytes.contains(NEWLINE)
}

/// Where the line from `from` ends: at its newline, or where `bytes` do.
pub open spec fn line_end(bytes: Seq<u8>, from: int) -> int
    decreases bytes.len() - from,
{
    if from >= bytes.len() {
        bytes.len() as int
    } else if bytes[from] == NEWLINE {
        from
    } else {
        line_end(bytes, from + 1)
    }
}

/// The whole records of `bytes` from `from` on, each with the position after
/// its newline.
pub open spec fn records_from(bytes: Seq<u8>, from: int) -> Seq<(Seq<u8>, int)>
    decreases bytes.len() - from,
    when 0 <= from
    via records_from_terminates
{
    let end = line_end(bytes, from);
    if end >= bytes.len() {
        Seq::empty()
    } else {
        let line = bytes.subrange(from, end);
        let rest = records_from(bytes, end + 1);
        if is_blank_line(line) {
            rest
        } else {
            seq![(line, end + 1)] + rest
        }
    }
}

#[via_fn]
proof fn records_from_terminates(bytes: Seq<u8>, from: int) {
    lemma_line_end(bytes, from);
}

/// Where the torn record of `bytes`, from `from` on, starts: after the last
/// newline.
pub open spec fn torn_start(bytes: Seq<u8>, from: int) -> int
    decreases bytes.len() - from,
    when 0 <= from
    via torn_start_terminates
{
    let end = line_end(bytes, from);
    if end >= bytes.len() {
        from
    } else {
        torn_start(bytes, end + 1)
    }
}

#[via_fn]
proof fn torn_start_terminates(bytes: Seq<u8>, from: int) {
    lemma_line_end(bytes, from);
}

/// Whether a record may start at `at`: the start, or just after a newline.
pub open spec fn is_boundary(bytes: Seq<u8>, at: int) -> bool {
    0 <= at <= bytes.len() && (at == 0 || bytes[at - 1] == NEWLINE)
}

pub proof fn lemma_line_end(bytes: Seq<u8>, from: int)
    ensures
        from <= bytes.len() ==> from <= line_end(bytes, from),
        line_end(bytes, from) <= bytes.len(),
        0 <= from && line_end(bytes, from) < bytes.len() ==> bytes[line_end(bytes, from)]
            == NEWLINE,
        forall|i: int|
            0 <= from <= i < line_end(bytes, from) ==> #[trigger] bytes[i] != NEWLINE,
    decreases bytes.len() - from,
{
    if from < bytes.len() && bytes[from] != NEWLINE {
        lemma_line_end(bytes, from + 1);
    }
}

/// The first newline at or after `from` is where the line ends.
pub proof fn lemma_line_end_is(bytes: Seq<u8>, from: int, end: int)
    requires
        0 <= from <= end <= bytes.len(),
        end < bytes.len() ==> bytes[end] == NEWLINE,
        forall|i: int| from <= i < end ==> #[trigger] bytes[i] != NEWLINE,
    ensures
        line_end(bytes, from) == end,
    decreases end - from,
{
    if from < end {
        lemma_line_end_is(bytes, from + 1, end);
    }
}

/// The records after a boundary, and the torn record's start, lie within the
/// bytes, in order.
pub proof fn lemma_records_bounds(bytes: Seq<u8>, from: int)
    requires
        0 <= from <= bytes.len(),
    ensures
        from <= torn_start(bytes, from) <= bytes.len(),
        is_boundary(bytes, from) ==> is_boundary(bytes, torn_start(bytes, from)),
        forall|i: int|
            0 <= i < records_from(bytes, from).len() ==> {
                &&& from < (#[trigger] records_from(bytes, from)[i]).1 <= torn_start(bytes, from)
                &&& is_boundary(bytes, records_from(bytes, from)[i].1)
                &&& is_record(records_from(bytes, from)[i].0)
            },
        forall|i: int, j: int|
            0 <= i < j < records_from(bytes, from).len() ==> (#[trigger] records_from(
                bytes,
                from,
            )[i]).1 < (#[trigger] records_from(bytes, from)[j]).1,
    decreases bytes.len() - from,
{
    lemma_line_end(bytes, from);
    let end = line_end(bytes, from);
    if end < bytes.len() {
        lemma_records_bounds(bytes, end + 1);
        let rest = records_from(bytes, end + 1);
        let line = bytes.subrange(from, end);
        let all = records_from(bytes, from);
        if !is_blank_line(line) {
            assert(all =~= seq![(line, end + 1)] + rest);
            assert(is_record(line)) by {
                if line.contains(NEWLINE) {
                    let k = choose|k: int| 0 <= k < line.len() && line[k] == NEWLINE;
                    assert(bytes[from + k] == NEWLINE);
                }
            }
            assert forall|i: int| 0 <= i < all.len() implies {
                &&& from < (#[trigger] all[i]).1 <= torn_start(bytes, from)
                &&& is_boundary(bytes, all[i].1)
                &&& is_record(all[i].0)
            } by {
                if i > 0 {
                    assert(all[i] == rest[i - 1]);
                }
            }
            assert forall|i: int, j: int| 0 <= i < j < all.len() implies (#[trigger] all[i]).1 < (
            #[trigger] all[j]).1 by {
                assert(all[j] == rest[j - 1]);
                if i > 0 {
                    assert(all[i] == rest[i - 1]);
                }
            }
        }
    }
}

/// Bytes put after a boundary leave the records before it as they are.
proof fn lemma_line_end_extends(bytes: Seq<u8>, more: Seq<u8>, from: int)
    requires
        0 <= from <= bytes.len(),
        line_end(bytes, from) < bytes.len(),
    ensures
        line_end(bytes + more, from) == line_end(bytes, from),
    decreases bytes.len() - from,
{
    lemma_line_end(bytes, from);
    let end = line_end(bytes, from);
    assert forall|i: int| from <= i < end implies #[trigger] (bytes + more)[i] != NEWLINE by {
        assert((bytes + more)[i] == bytes[i]);
    }
    lemma_line_end_is(bytes + more, from, end);
}

/// Appending to bytes that end on a boundary appends to their records: those
/// before stay as they are, and those of the bytes appended follow.
pub proof fn lemma_records_extend(bytes: Seq<u8>, more: Seq<u8>, from: int)
    requires
        0 <= from <= bytes.len(),
        torn_start(bytes, from) == bytes.len(),
    ensures
        records_from(bytes + more, from) == records_from(bytes, from) + records_from(
            bytes + more,
            bytes.len() as int,
        ),
        torn_start(bytes + more, from) == torn_start(bytes + more, bytes.len() as int),
    decreases bytes.len() - from,
{
    lemma_line_end(bytes, from);
    let end = line_end(bytes, from);
    if end < bytes.len() {
        lemma_line_end_extends(bytes, more, from);
        lemma_records_extend(bytes, more, end + 1);
        assert((bytes + more).subrange(from, end) =~= bytes.subrange(from, end));
        let line = bytes.subrange(from, end);
        let rest = records_from(bytes, end + 1);
        let after = records_from(bytes + more, bytes.len() as int);
        if is_blank_line(line) {
        } else {
            assert(seq![(line, end + 1)] + (rest + after) =~= (seq![(line, end + 1)] + rest)
                + after);
        }
    } else {
        assert(from == bytes.len());
        assert(records_from(bytes, from) =~= Seq::<(Seq<u8>, int)>::empty());
        assert(records_from(bytes, from) + records_from(bytes + more, from) =~= records_from(
            bytes + more,
            from,
        ));
    }
}

/// What is appended is read back: a record appended, with its newline, to bytes
/// that end on a boundary is the last record read, the ones before it unchanged
/// and nothing torn after it.
pub proof fn append_then_read(bytes: Seq<u8>, record: Seq<u8>)
    requires
        is_record(record),
        torn_start(bytes, 0) == bytes.len(),
    ensures
        records_from(bytes + record.push(NEWLINE), 0) == records_from(bytes, 0).push(
            (record, (bytes.len() + record.len() + 1) as int),
        ),
        torn_start(bytes + record.push(NEWLINE), 0) == bytes.len() + record.len() + 1,
{
    let line = record.push(NEWLINE);
    let all = bytes + line;
    let start = bytes.len() as int;
    let end = start + record.len();
    lemma_records_extend(bytes, line, 0);
    assert forall|i: int| start <= i < end implies #[trigger] all[i] != NEWLINE by {
        assert(all[i] == record[i - start]);
        assert(!record.contains(NEWLINE));
    }
    assert(all[end] == NEWLINE);
    lemma_line_end_is(all, start, end);
    assert(all.subrange(start, end) =~= record);
    lemma_line_end(all, end + 1);
    assert(records_from(all, end + 1) =~= Seq::<(Seq<u8>, int)>::empty());
    assert(records_from(all, start) =~= seq![(record, end + 1)]);
    assert(torn_start(all, end + 1) == end + 1);
    assert(torn_start(all, start) == torn_start(all, end + 1));
    assert(records_from(bytes, 0) + seq![(record, end + 1)] =~= records_from(bytes, 0).push(
        (record, end + 1),
    ));
}

/// Cutting a torn record off keeps every whole record, and leaves nothing torn.
pub proof fn heal_keeps_records(bytes: Seq<u8>, from: int)
    requires
        0 <= from <= bytes.len(),
    ensures
        from <= torn_start(bytes, from) <= bytes.len(),
        records_from(bytes.take(torn_start(bytes, from)), from) == records_from(bytes, from),
        torn_start(bytes.take(torn_start(bytes, from)), from) == torn_start(bytes, from),
    decreases bytes.len() - from,
{
    lemma_records_bounds(bytes, from);
    lemma_line_end(bytes, from);
    let end = line_end(bytes, from);
    let cut = torn_start(bytes, from);
    let kept = bytes.take(cut);
    if end < bytes.len() {
        heal_keeps_records(bytes, end + 1);
        lemma_records_bounds(bytes, end + 1);
        assert forall|i: int| from <= i < end implies #[trigger] kept[i] != NEWLINE by {
            assert(kept[i] == bytes[i]);
        }
        lemma_line_end_is(kept, from, end);
        assert(kept.subrange(from, end) =~= bytes.subrange(from, end));
    } else {
        assert(cut == from);
        lemma_line_end(kept, from);
        assert(records_from(kept, from) =~= Seq::<(Seq<u8>, int)>::empty());
    }
}

/// The records read from `from` on are those of the whole that end after it,
/// wherever `from` is a boundary.
pub proof fn lemma_records_after(bytes: Seq<u8>, start: int, from: int)
    requires
        0 <= start <= from <= bytes.len(),
        is_boundary(bytes, from),
    ensures
        records_from(bytes, from) == after_position(records_from(bytes, start), from),
    decreases bytes.len() - start,
{
    reveal_with_fuel(Seq::filter, 2);
    let past = |e: (Seq<u8>, int)| e.1 > from;
    lemma_line_end(bytes, start);
    let end = line_end(bytes, start);
    if start == from {
        lemma_records_bounds(bytes, from);
        lemma_filter_all(records_from(bytes, from), past);
    } else {
        assert(bytes[from - 1] == NEWLINE);
        assert(end < from) by {
            if end >= from {
                assert(bytes[from - 1] != NEWLINE);
            }
        }
        lemma_records_after(bytes, end + 1, from);
        let rest = records_from(bytes, end + 1);
        let line = bytes.subrange(start, end);
        if !is_blank_line(line) {
            let one = seq![(line, end + 1)];
            assert(records_from(bytes, start) =~= one + rest);
            Seq::filter_distributes_over_add(one, rest, past);
            assert(one.drop_last() =~= Seq::<(Seq<u8>, int)>::empty());
            assert(one.filter(past) =~= Seq::<(Seq<u8>, int)>::empty());
            assert(one.filter(past) + rest.filter(past) =~= rest.filter(past));
        }
    }
}

/// The torn record read from a boundary on is the one of the whole.
pub proof fn lemma_torn_after(bytes: Seq<u8>, start: int, from: int)
    requires
        0 <= start <= from <= bytes.len(),
        is_boundary(bytes, from),
    ensures
        torn_start(bytes, from) == torn_start(bytes, start),
    decreases bytes.len() - start,
{
    lemma_line_end(bytes, start);
    let end = line_end(bytes, start);
    if start < from {
        assert(bytes[from - 1] == NEWLINE);
        assert(end < from) by {
            if end >= from {
                assert(bytes[from - 1] != NEWLINE);
            }
        }
        lemma_torn_after(bytes, end + 1, from);
    }
}

/// The entries of `log` that end after `at`.
pub open spec fn after_position(log: Seq<(Seq<u8>, int)>, at: int) -> Seq<(Seq<u8>, int)> {
    log.filter(|e: (Seq<u8>, int)| e.1 > at)
}

/// A filter every item passes keeps everything.
pub proof fn lemma_filter_all<A>(items: Seq<A>, pred: spec_fn(A) -> bool)
    requires
        forall|i: int| 0 <= i < items.len() ==> pred(#[trigger] items[i]),
    ensures
        items.filter(pred) == items,
    decreases items.len(),
{
    reveal(Seq::filter);
    if items.len() > 0 {
        lemma_filter_all(items.drop_last(), pred);
        assert(items.drop_last().push(items.last()) =~= items);
    }
}

/// A filter no item passes keeps nothing.
pub proof fn lemma_filter_none<A>(items: Seq<A>, pred: spec_fn(A) -> bool)
    requires
        forall|i: int| 0 <= i < items.len() ==> !pred(#[trigger] items[i]),
    ensures
        items.filter(pred) == Seq::<A>::empty(),
    decreases items.len(),
{
    reveal(Seq::filter);
    if items.len() > 0 {
        lemma_filter_none(items.drop_last(), pred);
    }
}

/// Whether `bytes[from..to]` are blank.
fn blank_between(bytes: &Vec<u8>, from: usize, to: usize) -> (r: bool)
    requires
        from <= to <= bytes@.len(),
    ensures
        r == is_blank_line(bytes@.subrange(from as int, to as int)),
{
    let ghost line = bytes@.subrange(from as int, to as int);
    let mut i: usize = from;
    while i < to
        invariant
            from <= i <= to <= bytes@.len(),
            line == bytes@.subrange(from as int, to as int),
            forall|k: int| 0 <= k < i - from ==> is_space(#[trigger] line[k]),
        decreases to - i,
    {
        let b: u8 = bytes[i];
        if !(b == 9 || b == 10 || b == 12 || b == 13 || b == 32) {
            proof {
                assert(line[i - from] == b);
            }
            return false;
        }
        i += 1;
    }
    true
}

/// Whether `bytes` hold a newline.
pub fn holds_newline(bytes: &Vec<u8>) -> (r: bool)
    ensures
        r == bytes@.contains(NEWLINE),
{
    let mut i: usize = 0;
    while i < bytes.len()
        invariant
            i <= bytes@.len(),
            forall|k: int| 0 <= k < i ==> bytes@[k] != NEWLINE,
        decreases bytes@.len() - i,
    {
        if bytes[i] == NEWLINE {
            proof {
                assert(bytes@[i as int] == NEWLINE);
            }
            return true;
        }
        i += 1;
    }
    false
}

/// Whether `bytes` are white space alone, or none.
pub fn blank_line(bytes: &Vec<u8>) -> (r: bool)
    ensures
        r == is_blank_line(bytes@),
{
    proof {
        assert(bytes@.subrange(0, bytes@.len() as int) =~= bytes@);
    }
    blank_between(bytes, 0, bytes.len())
}

/// `bytes[from..to]`.
pub fn bytes_between(bytes: &Vec<u8>, from: usize, to: usize) -> (r: Vec<u8>)
    requires
        from <= to <= bytes@.len(),
    ensures
        r@ == bytes@.subrange(from as int, to as int),
{
    let mut out: Vec<u8> = Vec::new();
    let mut i: usize = from;
    while i < to
        invariant
            from <= i <= to <= bytes@.len(),
            out@ =~= bytes@.subrange(from as int, i as int),
        decreases to - i,
    {
        out.push(bytes[i]);
        i += 1;
    }
    out
}

/// A copy of `bytes`.
pub fn copied_bytes(bytes: &Vec<u8>) -> (r: Vec<u8>)
    ensures
        r@ == bytes@,
{
    proof {
        assert(bytes@.subrange(0, bytes@.len() as int) =~= bytes@);
    }
    bytes_between(bytes, 0, bytes.len())
}

/// What the lines of a file, from some boundary on, are.
#[derive(Debug)]
pub struct Scan {
    /// Where each whole record starts, and where its newline is.
    pub lines: Vec<(usize, usize)>,
    /// Where the torn record starts, when there is one.
    pub torn: Option<usize>,
}

/// The records `lines` of `bytes` are.
pub open spec fn lines_view(bytes: Seq<u8>, lines: Seq<(usize, usize)>) -> Seq<(Seq<u8>, int)> {
    Seq::new(
        lines.len(),
        |i: int| (bytes.subrange(lines[i].0 as int, lines[i].1 as int), lines[i].1 + 1),
    )
}

/// The whole records of `bytes` from `from` on, and the torn one after them.
pub fn scan(bytes: &Vec<u8>, from: usize) -> (r: Scan)
    requires
        from <= bytes@.len(),
    ensures
        lines_view(bytes@, r.lines@) == records_from(bytes@, from as int),
        forall|i: int|
            0 <= i < r.lines@.len() ==> from <= (#[trigger] r.lines@[i]).0 <= r.lines@[i].1
                < bytes@.len(),
        match r.torn {
            Some(at) => at == torn_start(bytes@, from as int) && at < bytes@.len(),
            None => torn_start(bytes@, from as int) == bytes@.len(),
        },
{
    let ghost all = bytes@;
    let mut lines: Vec<(usize, usize)> = Vec::new();
    let mut start: usize = from;
    let mut i: usize = from;
    proof {
        assert(lines_view(all, lines@) =~= Seq::<(Seq<u8>, int)>::empty());
        assert(lines_view(all, lines@) + records_from(all, from as int) =~= records_from(
            all,
            from as int,
        ));
    }
    while i < bytes.len()
        invariant
            from <= start <= i <= bytes@.len(),
            all == bytes@,
            forall|k: int| start <= k < i ==> #[trigger] all[k] != NEWLINE,
            lines_view(all, lines@) + records_from(all, start as int) == records_from(
                all,
                from as int,
            ),
            torn_start(all, start as int) == torn_start(all, from as int),
            forall|k: int|
                0 <= k < lines@.len() ==> from <= (#[trigger] lines@[k]).0 <= lines@[k].1
                    < bytes@.len(),
        decreases bytes@.len() - i,
    {
        if bytes[i] == NEWLINE {
            proof {
                lemma_line_end_is(all, start as int, i as int);
            }
            let ghost before = lines_view(all, lines@);
            let ghost rest = records_from(all, i + 1);
            if !blank_between(bytes, start, i) {
                lines.push((start, i));
                proof {
                    let line = (all.subrange(start as int, i as int), i + 1);
                    assert(lines_view(all, lines@) =~= before.push(line));
                    assert(before.push(line) + rest =~= before + (seq![line] + rest));
                }
            }
            start = i + 1;
        }
        i += 1;
    }
    proof {
        lemma_line_end_is(all, start as int, i as int);
        assert(records_from(all, start as int) =~= Seq::<(Seq<u8>, int)>::empty());
        assert(lines_view(all, lines@) + records_from(all, start as int) =~= lines_view(
            all,
            lines@,
        ));
    }
    let torn = if start < bytes.len() {
        Some(start)
    } else {
        None
    };
    Scan { lines, torn }
}

} // verus!
