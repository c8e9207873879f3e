//! Reading a stream back from a position, and merging several streams.
//!
//! A torn final line is a reading, never an error that ends the read: the whole
//! lines before it are yielded, and the position to resume from is the one after
//! the last whole line.

use crate::envelope::{Envelope, order_key_of};
use crate::framing::{NEWLINE, bytes_between, lemma_line_end, line_end, torn_start};
use crate::text::{
    blank, cat7, decimal, decimal_of, is_before, is_blank, lemma_before_irreflexive,
    lemma_before_total, lemma_before_transitive, same_text, text_before,
};
use vstd::prelude::*;

verus! {

/// One whole record, and where the next one starts.
#[derive(Debug)]
pub struct Record {
    /// The envelope the line held.
    pub envelope: Envelope,
    /// The byte position after it.
    pub position: u64,
}

/// A final line no newline has ended yet.
#[derive(Debug, Clone, Copy, PartialEq, Eq, Structural)]
pub struct Torn {
    /// The byte position the torn bytes start at, which is also the one to resume
    /// from.
    pub at: u64,
    /// How many bytes of it there are so far.
    pub bytes: u64,
}

/// A whole line that is not an envelope.
#[derive(Debug)]
pub struct Refused {
    /// The byte position the line starts at.
    pub at: u64,
    /// The byte position after it.
    pub position: u64,
    /// Why it is not an envelope.
    pub reason: String,
}

/// What one line of a stream read as.
#[derive(Debug)]
pub enum Reading {
    /// A whole envelope.
    Record(Record),
    /// The unfinished final line.
    Torn(Torn),
    /// A whole line that is not an envelope.
    Refused(Refused),
}

/// One whole line of a stream.
#[derive(Debug)]
pub struct StreamLine {
    /// The byte position it starts at.
    pub at: u64,
    /// The byte position after its newline.
    pub position: u64,
    /// Its bytes.
    pub bytes: Vec<u8>,
}

/// The whole lines of a stream from a position, and its torn tail.
#[derive(Debug)]
pub struct Lines {
    /// The whole lines, in order.
    pub whole: Vec<StreamLine>,
    /// The unfinished final line.
    pub torn: Option<Torn>,
}

/// The whole lines of `bytes` from `from` on: where each starts, where the next
/// one does, and what it holds.
pub open spec fn whole_lines(bytes: Seq<u8>, from: int) -> Seq<(int, int, Seq<u8>)>
    decreases bytes.len() - from,
    when 0 <= from
    via whole_lines_terminates
{
    let end = line_end(bytes, from);
    if end >= bytes.len() {
        Seq::empty()
    } else {
        seq![(from, end + 1, bytes.subrange(from, end))] + whole_lines(bytes, end + 1)
    }
}

#[via_fn]
proof fn whole_lines_terminates(bytes: Seq<u8>, from: int) {
    lemma_line_end(bytes, from);
}

/// What lines are, read at `offset`.
pub open spec fn lines_are(lines: Seq<StreamLine>, offset: int) -> Seq<(int, int, Seq<u8>)> {
    Seq::new(
        lines.len(),
        |i: int| (lines[i].at - offset, lines[i].position - offset, lines[i].bytes@),
    )
}

/// The lines of `bytes`, which start at `offset` in their stream.
pub fn read_lines(bytes: &Vec<u8>, offset: u64) -> (r: Lines)
    requires
        offset + bytes@.len() <= u64::MAX,
    ensures
        lines_are(r.whole@, offset as int) == whole_lines(bytes@, 0),
        match r.torn {
            Some(torn) => torn.at == offset + torn_start(bytes@, 0) && torn.bytes == bytes@.len()
                - torn_start(bytes@, 0) && torn.bytes > 0,
            None => torn_start(bytes@, 0) == bytes@.len(),
        },
{
    let len: usize = bytes.len();
    let mut whole: Vec<StreamLine> = Vec::new();
    let mut start: usize = 0;
    proof {
        assert(lines_are(whole@, offset as int) + whole_lines(bytes@, 0) =~= whole_lines(
            bytes@,
            0,
        ));
    }
    while start < len
        invariant
            start <= len == bytes@.len(),
            offset + bytes@.len() <= u64::MAX,
            lines_are(whole@, offset as int) + whole_lines(bytes@, start as int) == whole_lines(
                bytes@,
                0,
            ),
            torn_start(bytes@, 0) == torn_start(bytes@, start as int),
        decreases len - start,
    {
        proof {
            lemma_line_end(bytes@, start as int);
        }
        let mut end: usize = start;
        while end < len && bytes[end] != NEWLINE
            invariant
                start <= end <= len == bytes@.len(),
                line_end(bytes@, start as int) == line_end(bytes@, end as int),
            decreases len - end,
        {
            end += 1;
        }
        if end == len {
            proof {
                assert(whole_lines(bytes@, start as int) =~= Seq::<(int, int, Seq<u8>)>::empty());
                assert(lines_are(whole@, offset as int) =~= whole_lines(bytes@, 0));
            }
            return Lines {
                whole,
                torn: Some(Torn { at: offset + start as u64, bytes: (len - start) as u64 }),
            };
        }
        let ghost before = lines_are(whole@, offset as int);
        let line = StreamLine {
            at: offset + start as u64,
            position: offset + end as u64 + 1,
            bytes: bytes_between(bytes, start, end),
        };
        whole.push(line);
        proof {
            let one = (start as int, end + 1, bytes@.subrange(start as int, end as int));
            assert(lines_are(whole@, offset as int) =~= before.push(one));
            assert(before.push(one) + whole_lines(bytes@, end + 1) =~= before + (seq![one]
                + whole_lines(bytes@, end + 1)));
        }
        start = end + 1;
    }
    proof {
        assert(line_end(bytes@, start as int) == len);
        assert(whole_lines(bytes@, start as int) =~= Seq::<(int, int, Seq<u8>)>::empty());
        assert(lines_are(whole@, offset as int) =~= whole_lines(bytes@, 0));
    }
    Lines { whole, torn: None }
}

/// The position after the last whole line: what a later reader resumes from.
pub fn resume_from(lines: &Lines, offset: u64) -> (r: u64)
    ensures
        r == if lines.whole@.len() > 0 {
            lines.whole@.last().position
        } else {
            offset
        },
{
    if lines.whole.len() > 0 {
        lines.whole[lines.whole.len() - 1].position
    } else {
        offset
    }
}

/// Why a position is no record boundary: the byte before it, where there is one,
/// is no newline.
pub open spec fn boundary_fault(position: u64, before: Option<u8>) -> Option<Seq<char>> {
    if position == 0 {
        None
    } else {
        match before {
            None => Some("it is past the end of the file"@),
            Some(byte) => if byte != NEWLINE {
                Some("it is inside a record: no newline ends the byte before it"@)
            } else {
                None
            },
        }
    }
}

/// Refuses to read a stream from a position that is no record boundary, given the
/// byte before it.
pub fn check_boundary(path: &str, position: u64, before: Option<u8>) -> (r: Result<(), String>)
    ensures
        match r {
            Ok(()) => boundary_fault(position, before) is None,
            Err(why) => boundary_fault(position, before) is Some && why@ == "cannot read "@ + path@
                + " from byte "@ + decimal(position as nat) + ": "@ + boundary_fault(
                position,
                before,
            )->0 + "; resume from a position a reading handed back, or 0"@,
        },
{
    if position == 0 {
        return Ok(());
    }
    let why = match before {
        None => "it is past the end of the file",
        Some(byte) => if byte != NEWLINE {
            "it is inside a record: no newline ends the byte before it"
        } else {
            return Ok(());
        },
    };
    let at = decimal_of(position);
    Err(
        cat7(
            "cannot read ",
            path,
            " from byte ",
            at.as_str(),
            ": ",
            why,
            "; resume from a position a reading handed back, or 0",
        ),
    )
}

/// Refuses a line that holds nothing but white space.
pub fn check_line(text: &str) -> (r: Result<(), String>)
    ensures
        match r {
            Ok(()) => !is_blank(text@),
            Err(why) => is_blank(text@) && why@ == "an empty line, which no writer leaves"@,
        },
{
    if blank(text) {
        Err("an empty line, which no writer leaves".to_owned())
    } else {
        Ok(())
    }
}

/// What a line read as, given the envelope it holds or why it holds none.
pub fn reading_of(line: &StreamLine, read: Result<Envelope, String>) -> (r: Reading)
    ensures
        match read {
            Ok(envelope) => r == Reading::Record(Record { envelope, position: line.position }),
            Err(reason) => r == Reading::Refused(
                Refused { at: line.at, position: line.position, reason },
            ),
        },
{
    match read {
        Ok(envelope) => Reading::Record(Record { envelope, position: line.position }),
        Err(reason) => Reading::Refused(
            Refused { at: line.at, position: line.position, reason },
        ),
    }
}

/// Everything one read of a stream produced.
#[derive(Debug)]
pub struct Readings {
    /// The position after the last whole record.
    pub position: u64,
    /// The whole envelopes, in file order.
    pub records: Vec<Record>,
    /// The whole lines that were not envelopes.
    pub refused: Vec<Refused>,
    /// The unfinished final line, if there is one.
    pub torn: Option<Torn>,
}

/// The records among readings, in order.
pub open spec fn records_among(readings: Seq<Reading>) -> Seq<Record>
    decreases readings.len(),
{
    if readings.len() == 0 {
        Seq::empty()
    } else {
        let before = records_among(readings.drop_last());
        match readings.last() {
            Reading::Record(record) => before.push(record),
            _ => before,
        }
    }
}

/// The refused lines among readings, in order.
pub open spec fn refused_among(readings: Seq<Reading>) -> Seq<Refused>
    decreases readings.len(),
{
    if readings.len() == 0 {
        Seq::empty()
    } else {
        let before = refused_among(readings.drop_last());
        match readings.last() {
            Reading::Refused(refused) => before.push(refused),
            _ => before,
        }
    }
}

/// The last torn line among readings.
pub open spec fn torn_among(readings: Seq<Reading>) -> Option<Torn>
    decreases readings.len(),
{
    if readings.len() == 0 {
        None
    } else {
        match readings.last() {
            Reading::Torn(torn) => Some(torn),
            _ => torn_among(readings.drop_last()),
        }
    }
}

/// Every reading, sorted into the whole envelopes, the refused lines and the torn
/// tail.
pub fn collect_all(readings: Vec<Reading>, position: u64) -> (r: Readings)
    ensures
        r.position == position,
        r.records@ == records_among(readings@),
        r.refused@ == refused_among(readings@),
        r.torn == torn_among(readings@),
{
    let ghost all = readings@;
    let count: usize = readings.len();
    let mut rest = readings;
    let mut records: Vec<Record> = Vec::new();
    let mut refused: Vec<Refused> = Vec::new();
    let mut torn: Option<Torn> = None;
    let mut i: usize = 0;
    proof {
        assert(all.take(0) =~= Seq::<Reading>::empty());
        assert(all.skip(0) =~= all);
    }
    while rest.len() > 0
        invariant
            i + rest@.len() == count == all.len(),
            rest@ =~= all.skip(i as int),
            records@ == records_among(all.take(i as int)),
            refused@ == refused_among(all.take(i as int)),
            torn == torn_among(all.take(i as int)),
        decreases rest@.len(),
    {
        proof {
            assert(rest@[0] == all[i as int]);
            assert(all.take(i + 1).drop_last() =~= all.take(i as int));
            assert(all.take(i + 1).last() == all[i as int]);
        }
        match rest.remove(0) {
            Reading::Record(record) => records.push(record),
            Reading::Refused(line) => refused.push(line),
            Reading::Torn(tail) => {
                torn = Some(tail);
            },
        }
        i += 1;
    }
    proof {
        assert(all.take(i as int) =~= all);
    }
    Readings { position, records, refused, torn }
}

// ---------------------------------------------------------------------------
// Merging streams.
// ---------------------------------------------------------------------------

/// Whether one key comes before another: by timestamp, then by stream, then by
/// number.
pub open spec fn key_before(a: (Seq<char>, Seq<char>, u64), b: (Seq<char>, Seq<char>, u64)) -> bool {
    if a.0 != b.0 {
        text_before(a.0, b.0)
    } else if a.1 != b.1 {
        text_before(a.1, b.1)
    } else {
        a.2 < b.2
    }
}

/// Where an envelope goes among sorted ones: after every one it does not come
/// before.
pub open spec fn place_of(sorted: Seq<Envelope>, envelope: Envelope, n: int) -> int
    decreases n,
{
    if n <= 0 || n > sorted.len() || !key_before(
        order_key_of(envelope),
        order_key_of(sorted[n - 1]),
    ) {
        n
    } else {
        place_of(sorted, envelope, n - 1)
    }
}

/// Envelopes in the order of their keys, those of one key in the order they were
/// read.
pub open spec fn merged(envelopes: Seq<Envelope>) -> Seq<Envelope>
    decreases envelopes.len(),
{
    if envelopes.len() == 0 {
        Seq::empty()
    } else {
        let before = merged(envelopes.drop_last());
        before.insert(
            place_of(before, envelopes.last(), before.len() as int),
            envelopes.last(),
        )
    }
}

fn comes_before(a: &Envelope, b: &Envelope) -> (r: bool)
    ensures
        r == key_before(order_key_of(*a), order_key_of(*b)),
{
    if !same_text(a.ts.as_str(), b.ts.as_str()) {
        is_before(a.ts.as_str(), b.ts.as_str())
    } else if !same_text(a.stream.as_str(), b.stream.as_str()) {
        is_before(a.stream.as_str(), b.stream.as_str())
    } else {
        a.seq < b.seq
    }
}

proof fn lemma_place_bound(sorted: Seq<Envelope>, envelope: Envelope, n: int)
    requires
        0 <= n <= sorted.len(),
    ensures
        0 <= place_of(sorted, envelope, n) <= n,
        forall|i: int|
            place_of(sorted, envelope, n) <= i < n ==> key_before(
                order_key_of(envelope),
                order_key_of(#[trigger] sorted[i]),
            ),
        place_of(sorted, envelope, n) > 0 ==> !key_before(
            order_key_of(envelope),
            order_key_of(sorted[place_of(sorted, envelope, n) - 1]),
        ),
    decreases n,
{
    if n > 0 && key_before(order_key_of(envelope), order_key_of(sorted[n - 1])) {
        lemma_place_bound(sorted, envelope, n - 1);
    }
}

/// Several streams folded into one, in the order of their keys.
#[derive(Debug)]
pub struct Merge {
    records: Vec<Envelope>,
    refused: Vec<(String, Refused)>,
    torn: Vec<(String, Torn)>,
}

/// What one file's readings were.
#[derive(Debug)]
pub struct FileReadings {
    /// The file.
    pub path: String,
    /// What was read of it.
    pub readings: Vec<Reading>,
}

/// The envelopes of files, in the order they were read.
pub open spec fn envelopes_of(records: Seq<Record>) -> Seq<Envelope> {
    Seq::new(records.len(), |i: int| records[i].envelope)
}

/// The envelopes of the first `n` files, in the order they were read.
pub open spec fn envelopes_in(files: Seq<FileReadings>, n: int) -> Seq<Envelope>
    decreases n,
{
    if n <= 0 || n > files.len() {
        Seq::empty()
    } else {
        envelopes_in(files, n - 1) + envelopes_of(records_among(files[n - 1].readings@))
    }
}

/// The refused lines of the first `n` files, each with its file.
pub open spec fn refused_in(files: Seq<FileReadings>, n: int) -> Seq<(Seq<char>, Refused)>
    decreases n,
{
    if n <= 0 || n > files.len() {
        Seq::empty()
    } else {
        refused_in(files, n - 1) + in_file(refused_among(files[n - 1].readings@), files[n - 1].path@)
    }
}

/// Every torn line among readings, in order.
pub open spec fn torn_lines(readings: Seq<Reading>) -> Seq<Torn>
    decreases readings.len(),
{
    if readings.len() == 0 {
        Seq::empty()
    } else {
        let before = torn_lines(readings.drop_last());
        match readings.last() {
            Reading::Torn(torn) => before.push(torn),
            _ => before,
        }
    }
}

/// The torn lines of the first `n` files, each with its file.
pub open spec fn torn_in(files: Seq<FileReadings>, n: int) -> Seq<(Seq<char>, Torn)>
    decreases n,
{
    if n <= 0 || n > files.len() {
        Seq::empty()
    } else {
        torn_in(files, n - 1) + in_file(torn_lines(files[n - 1].readings@), files[n - 1].path@)
    }
}

/// Each of several, with a file.
pub open spec fn in_file<A>(each: Seq<A>, path: Seq<char>) -> Seq<(Seq<char>, A)> {
    Seq::new(each.len(), |i: int| (path, each[i]))
}

/// Each of several, with its file.
pub open spec fn paths_view<A>(each: Seq<(String, A)>) -> Seq<(Seq<char>, A)> {
    Seq::new(each.len(), |i: int| (each[i].0@, each[i].1))
}

/// Puts an envelope in its place.
fn place(sorted: &mut Vec<Envelope>, envelope: Envelope)
    ensures
        final(sorted)@ == old(sorted)@.insert(
            place_of(old(sorted)@, envelope, old(sorted)@.len() as int),
            envelope,
        ),
{
    let mut at: usize = sorted.len();
    while at > 0 && comes_before(&envelope, &sorted[at - 1])
        invariant
            at <= sorted@.len(),
            sorted@ == old(sorted)@,
            place_of(sorted@, envelope, sorted@.len() as int) == place_of(
                sorted@,
                envelope,
                at as int,
            ),
        decreases at,
    {
        at = at - 1;
    }
    sorted.insert(at, envelope);
}

impl Merge {
    /// The merged envelopes.
    pub closed spec fn records_are(&self) -> Seq<Envelope> {
        self.records@
    }

    /// The refused lines, each with its file.
    pub closed spec fn refused_are(&self) -> Seq<(Seq<char>, Refused)> {
        paths_view(self.refused@)
    }

    /// The torn lines, each with its file.
    pub closed spec fn torn_are(&self) -> Seq<(Seq<char>, Torn)> {
        paths_view(self.torn@)
    }

    /// Folds every reading of `files` into one ordered stream.
    pub fn new(files: Vec<FileReadings>) -> (r: Self)
        ensures
            r.records_are() == merged(envelopes_in(files@, files@.len() as int)),
            r.refused_are() == refused_in(files@, files@.len() as int),
            r.torn_are() == torn_in(files@, files@.len() as int),
    {
        let ghost all = files@;
        let count: usize = files.len();
        let mut rest = files;
        let mut records: Vec<Envelope> = Vec::new();
        let mut refused: Vec<(String, Refused)> = Vec::new();
        let mut torn: Vec<(String, Torn)> = Vec::new();
        let mut i: usize = 0;
        proof {
            assert(all.skip(0) =~= all);
            assert(paths_view(refused@) =~= Seq::<(Seq<char>, Refused)>::empty());
            assert(paths_view(torn@) =~= Seq::<(Seq<char>, Torn)>::empty());
        }
        while rest.len() > 0
            invariant
                i + rest@.len() == count == all.len(),
                rest@ =~= all.skip(i as int),
                records@ == merged(envelopes_in(all, i as int)),
                paths_view(refused@) == refused_in(all, i as int),
                paths_view(torn@) == torn_in(all, i as int),
            decreases rest@.len(),
        {
            proof {
                assert(rest@[0] == all[i as int]);
            }
            let file = rest.remove(0);
            let ghost lines = file.readings@;
            let ghost path = file.path@;
            let ghost had = envelopes_in(all, i as int);
            let ghost had_refused = paths_view(refused@);
            let ghost had_torn = paths_view(torn@);
            let size: usize = file.readings.len();
            let name = file.path;
            let mut left = file.readings;
            let mut j: usize = 0;
            proof {
                assert(lines.take(0) =~= Seq::<Reading>::empty());
                assert(lines.skip(0) =~= lines);
                assert(had + envelopes_of(records_among(lines.take(0))) =~= had);
                assert(had_refused + in_file(refused_among(lines.take(0)), path) =~= had_refused);
                assert(had_torn + in_file(torn_lines(lines.take(0)), path) =~= had_torn);
            }
            while left.len() > 0
                invariant
                    j + left@.len() == size == lines.len(),
                    left@ =~= lines.skip(j as int),
                    name@ == path,
                    records@ == merged(
                        had + envelopes_of(records_among(lines.take(j as int))),
                    ),
                    paths_view(refused@) == had_refused + in_file(
                        refused_among(lines.take(j as int)),
                        path,
                    ),
                    paths_view(torn@) == had_torn + in_file(
                        torn_lines(lines.take(j as int)),
                        path,
                    ),
                decreases left@.len(),
            {
                proof {
                    assert(left@[0] == lines[j as int]);
                    assert(lines.take(j + 1).drop_last() =~= lines.take(j as int));
                    assert(lines.take(j + 1).last() == lines[j as int]);
                }
                let ghost listed = had + envelopes_of(records_among(lines.take(j as int)));
                let ghost listed_now = had + envelopes_of(records_among(lines.take(j + 1)));
                let ghost was_refused = paths_view(refused@);
                let ghost was_torn = paths_view(torn@);
                match left.remove(0) {
                    Reading::Record(record) => {
                        let ghost one = record.envelope;
                        place(&mut records, record.envelope);
                        proof {
                            assert(listed_now =~= listed.push(one));
                            assert(listed_now.drop_last() =~= listed);
                        }
                    },
                    Reading::Refused(line) => {
                        let ghost one = line;
                        refused.push((name.clone(), line));
                        proof {
                            assert(paths_view(refused@) =~= was_refused.push((path, one)));
                            assert(had_refused + in_file(refused_among(lines.take(j + 1)), path)
                                =~= was_refused.push((path, one)));
                        }
                    },
                    Reading::Torn(tail) => {
                        torn.push((name.clone(), tail));
                        proof {
                            assert(paths_view(torn@) =~= was_torn.push((path, tail)));
                            assert(had_torn + in_file(torn_lines(lines.take(j + 1)), path)
                                =~= was_torn.push((path, tail)));
                        }
                    },
                }
                j += 1;
            }
            proof {
                assert(lines.take(j as int) =~= lines);
            }
            i += 1;
        }
        Merge { records, refused, torn }
    }

    /// The merged envelopes, in the order of their keys.
    pub fn records(&self) -> (r: &Vec<Envelope>)
        ensures
            r@ == self.records_are(),
    {
        &self.records
    }

    /// The whole lines that were not envelopes, with the file each was in.
    pub fn refused(&self) -> (r: &Vec<(String, Refused)>)
        ensures
            paths_view(r@) == self.refused_are(),
    {
        &self.refused
    }

    /// The torn tails, with the file each was in.
    pub fn torn(&self) -> (r: &Vec<(String, Torn)>)
        ensures
            paths_view(r@) == self.torn_are(),
    {
        &self.torn
    }

    /// The merged envelopes, taken.
    pub fn into_records(self) -> (r: Vec<Envelope>)
        ensures
            r@ == self.records_are(),
    {
        self.records
    }
}

// ---------------------------------------------------------------------------
// Laws.
// ---------------------------------------------------------------------------

proof fn lemma_key_order(
    a: (Seq<char>, Seq<char>, u64),
    b: (Seq<char>, Seq<char>, u64),
    c: (Seq<char>, Seq<char>, u64),
)
    requires
        !key_before(b, a),
        !key_before(c, b),
    ensures
        !key_before(c, a),
{
    lemma_before_total(a.0, b.0);
    lemma_before_total(b.0, c.0);
    lemma_before_total(a.1, b.1);
    lemma_before_total(b.1, c.1);
    if key_before(c, a) {
        if c.0 != a.0 {
            if a.0 == b.0 {
            } else {
                lemma_before_transitive(c.0, a.0, b.0);
            }
        } else {
            if a.0 != b.0 {
                assert(text_before(a.0, b.0) && text_before(b.0, c.0));
                lemma_before_transitive(a.0, b.0, a.0);
                lemma_before_irreflexive(a.0);
            } else if c.1 != a.1 {
                if a.1 != b.1 {
                    lemma_before_transitive(c.1, a.1, b.1);
                }
            } else {
                if a.1 != b.1 {
                    lemma_before_transitive(a.1, b.1, a.1);
                    lemma_before_irreflexive(a.1);
                }
            }
        }
    }
}

proof fn lemma_key_asymmetric(a: (Seq<char>, Seq<char>, u64), b: (Seq<char>, Seq<char>, u64))
    requires
        key_before(a, b),
    ensures
        !key_before(b, a),
{
    if key_before(b, a) {
        if a.0 != b.0 {
            lemma_before_transitive(a.0, b.0, a.0);
            lemma_before_irreflexive(a.0);
        } else if a.1 != b.1 {
            lemma_before_transitive(a.1, b.1, a.1);
            lemma_before_irreflexive(a.1);
        }
    }
}

/// Merged envelopes are in the order of their keys.
pub proof fn merged_is_in_order(envelopes: Seq<Envelope>, i: int, j: int)
    requires
        0 <= i < j < merged(envelopes).len(),
    ensures
        !key_before(order_key_of(merged(envelopes)[j]), order_key_of(merged(envelopes)[i])),
    decreases envelopes.len(),
{
    let before = merged(envelopes.drop_last());
    let one = envelopes.last();
    let at = place_of(before, one, before.len() as int);
    lemma_place_bound(before, one, before.len() as int);
    let now = merged(envelopes);
    if i == at {
        assert(now[j] == before[j - 1]);
        assert(key_before(order_key_of(one), order_key_of(before[j - 1])));
        lemma_key_asymmetric(order_key_of(one), order_key_of(before[j - 1]));
    } else if j == at {
        assert(now[i] == before[i]);
        if i < at - 1 {
            merged_is_in_order(envelopes.drop_last(), i, at - 1);
            lemma_key_order(
                order_key_of(before[i]),
                order_key_of(before[at - 1]),
                order_key_of(one),
            );
        }
    } else {
        let k = if i > at {
            i - 1
        } else {
            i
        };
        let l = if j > at {
            j - 1
        } else {
            j
        };
        assert(now[i] == before[k] && now[j] == before[l]);
        merged_is_in_order(envelopes.drop_last(), k, l);
    }
}

/// Merging keeps every envelope, and no other.
pub proof fn merging_keeps_every_envelope(envelopes: Seq<Envelope>)
    ensures
        merged(envelopes).to_multiset() == envelopes.to_multiset(),
    decreases envelopes.len(),
{
    broadcast use vstd::seq_lib::group_to_multiset_ensures;

    if envelopes.len() > 0 {
        let rest = envelopes.drop_last();
        merging_keeps_every_envelope(rest);
        let before = merged(rest);
        let one = envelopes.last();
        let at = place_of(before, one, before.len() as int);
        lemma_place_bound(before, one, before.len() as int);
        assert(envelopes =~= rest.push(one));
        assert(before.insert(at, one).to_multiset() =~= before.to_multiset().insert(one));
        assert(rest.push(one).to_multiset() =~= rest.to_multiset().insert(one));
    } else {
        assert(merged(envelopes) =~= envelopes);
    }
}

/// The envelopes of one stream, in order.
pub open spec fn of_key(envelopes: Seq<Envelope>, key: (Seq<char>, Seq<char>, u64)) -> Seq<Envelope>
    decreases envelopes.len(),
{
    if envelopes.len() == 0 {
        Seq::empty()
    } else {
        let before = of_key(envelopes.drop_last(), key);
        if order_key_of(envelopes.last()) == key {
            before.push(envelopes.last())
        } else {
            before
        }
    }
}

/// Envelopes of one key stay in the order they were read.
pub proof fn merging_is_stable(envelopes: Seq<Envelope>, key: (Seq<char>, Seq<char>, u64))
    ensures
        of_key(merged(envelopes), key) == of_key(envelopes, key),
    decreases envelopes.len(),
{
    if envelopes.len() > 0 {
        let rest = envelopes.drop_last();
        merging_is_stable(rest, key);
        let before = merged(rest);
        let one = envelopes.last();
        let at = place_of(before, one, before.len() as int);
        lemma_place_bound(before, one, before.len() as int);
        assert forall|i: int| at <= i < before.len() implies order_key_of(#[trigger] before[i])
            != order_key_of(one) by {
            assert(key_before(order_key_of(one), order_key_of(before[i])));
            lemma_key_asymmetric(order_key_of(one), order_key_of(before[i]));
        }
        lemma_of_key_insert(before, at, one, key);
    }
}

proof fn lemma_of_key_insert(
    sorted: Seq<Envelope>,
    at: int,
    one: Envelope,
    key: (Seq<char>, Seq<char>, u64),
)
    requires
        0 <= at <= sorted.len(),
        forall|i: int|
            at <= i < sorted.len() ==> order_key_of(#[trigger] sorted[i]) != order_key_of(one),
    ensures
        of_key(sorted.insert(at, one), key) == if order_key_of(one) == key {
            of_key(sorted, key).push(one)
        } else {
            of_key(sorted, key)
        },
    decreases sorted.len(),
{
    let now = sorted.insert(at, one);
    if at == sorted.len() {
        assert(now.drop_last() =~= sorted);
        assert(now.last() == one);
    } else {
        let rest = sorted.drop_last();
        assert(now.drop_last() =~= rest.insert(at, one));
        assert(now.last() == sorted.last());
        assert(sorted.last() == sorted[sorted.len() - 1]);
        assert forall|i: int| at <= i < rest.len() implies order_key_of(#[trigger] rest[i])
            != order_key_of(one) by {
            assert(rest[i] == sorted[i]);
        }
        lemma_of_key_insert(rest, at, one, key);
    }
}

/// A line completed after it was torn is read whole on the next resume: the whole
/// lines read first, and those read from where the torn one started, are the whole
/// lines of it all.
pub proof fn resuming_reads_on(first: Seq<u8>, more: Seq<u8>, from: int)
    requires
        0 <= from <= first.len(),
    ensures
        whole_lines(first + more, from) == whole_lines(first, from) + whole_lines(
            first + more,
            torn_start(first, from),
        ),
        from <= torn_start(first, from) <= first.len(),
    decreases first.len() - from,
{
    let all = first + more;
    lemma_line_end(first, from);
    let end = line_end(first, from);
    if end < first.len() {
        lemma_line_end_extends(first, more, from);
        resuming_reads_on(first, more, end + 1);
        let tail = whole_lines(all, torn_start(first, from));
        assert(all.subrange(from, end) =~= first.subrange(from, end));
        let one = (from, end + 1, first.subrange(from, end));
        assert(whole_lines(all, from) =~= seq![one] + (whole_lines(first, end + 1) + tail));
        assert(whole_lines(first, from) + tail =~= seq![one] + (whole_lines(first, end + 1)
            + tail));
    } else {
        assert(whole_lines(first, from) + whole_lines(all, from) =~= whole_lines(all, from));
    }
}

pub proof fn lemma_line_end_extends(first: Seq<u8>, more: Seq<u8>, from: int)
    requires
        0 <= from <= first.len(),
        line_end(first, from) < first.len(),
    ensures
        line_end(first + more, from) == line_end(first, from),
    decreases first.len() - from,
{
    if from < first.len() && first[from] != NEWLINE {
        assert((first + more)[from] == first[from]);
        lemma_line_end_extends(first, more, from + 1);
    } else if from < first.len() {
        assert((first + more)[from] == first[from]);
    }
}

} // verus!
