//! Queues kept as files of lines in a directory: which files, and what their
//! bytes say.

use crate::framing::{
    NEWLINE, after_position, append_then_read, bytes_between, copied_bytes, heal_keeps_records,
    is_boundary, is_record, lemma_records_after, lemma_records_bounds, lines_view, records_from,
    scan, torn_start,
};
use crate::json::{Json, JsonView, NumberView, parsed_json, reads_as, whole};
use crate::names::{ConsumerName, DEFAULT_CONSUMER, Position, QueueName, is_name, is_name_char};
use crate::text::{cat2, cat3, cat4, chars_of, decimal, trim, trimmed};
use crate::transport::{
    Batch, Stored, TornRecord, TransportError, check_record, limited, record_fault, start_of,
    stored_view,
};
use vstd::prelude::*;

verus! {

/// A directory queues are kept in, a file of lines for each.
#[derive(Debug)]
pub struct LocalTransport {
    dir: String,
}

/// A name within a directory.
pub open spec fn path_in(dir: Seq<char>, name: Seq<char>) -> Seq<char> {
    if dir.len() == 0 || dir.last() == '/' {
        dir + name
    } else {
        dir + "/"@ + name
    }
}

/// The path of `name` within `dir`.
pub fn path_of(dir: &str, name: &str) -> (r: String)
    ensures
        r@ == path_in(dir@, name@),
{
    let chars = chars_of(dir);
    if chars.len() == 0 || chars[chars.len() - 1] == '/' {
        cat2(dir, name)
    } else {
        cat3(dir, "/", name)
    }
}

/// The name of the file a queue's records are kept in.
pub open spec fn records_name(queue: Seq<char>) -> Seq<char> {
    queue + ".jsonl"@
}

/// The name of the file a consumer's cursor is kept in.
pub open spec fn cursor_name(queue: Seq<char>, consumer: Seq<char>) -> Seq<char> {
    if consumer == DEFAULT_CONSUMER@ {
        queue + "-cursor.json"@
    } else {
        queue + "-cursor."@ + consumer + ".json"@
    }
}

/// How a record is to be appended to a file.
#[derive(Debug)]
pub struct Append {
    /// How much of the file to keep: what follows is a torn record.
    pub boundary: usize,
    /// How many bytes of a torn record are cut off.
    pub lost: usize,
    /// The bytes to write after that.
    pub line: Vec<u8>,
    /// The position after the record.
    pub after: Position,
}

/// The offset after the `count`th record, or the last where there are fewer.
pub open spec fn count_offset(log: Seq<(Seq<u8>, int)>, count: int) -> int {
    if count <= 0 || log.len() == 0 {
        0
    } else if count <= log.len() {
        log[count - 1].1
    } else {
        log.last().1
    }
}

/// How many records end at or before `at`.
pub open spec fn count_before(log: Seq<(Seq<u8>, int)>, at: int) -> nat {
    log.filter(|e: (Seq<u8>, int)| e.1 <= at).len()
}

/// Where a file of lines, `bytes`, refuses a position.
pub open spec fn refused_position(bytes: Seq<u8>, at: int) -> bool {
    at > bytes.len() || !is_boundary(bytes, at)
}

impl View for LocalTransport {
    type V = Seq<char>;

    closed spec fn view(&self) -> Seq<char> {
        self.dir@
    }
}

impl LocalTransport {
    /// Queues kept in `dir`.
    pub fn over(dir: &str) -> (r: Self)
        ensures
            r@ == dir@,
    {
        LocalTransport { dir: dir.to_owned() }
    }

    /// The directory.
    pub fn dir(&self) -> (r: &str)
        ensures
            r@ == self@,
    {
        self.dir.as_str()
    }

    /// The file a queue's records are kept in.
    pub fn records_path(&self, queue: &QueueName) -> (r: String)
        ensures
            r@ == path_in(self@, records_name(queue@)),
    {
        let name = cat2(queue.as_str(), ".jsonl");
        path_of(self.dir.as_str(), name.as_str())
    }

    /// The file a consumer's cursor is kept in.
    pub fn cursor_path(&self, queue: &QueueName, consumer: &ConsumerName) -> (r: String)
        ensures
            r@ == path_in(self@, cursor_name(queue@, consumer@)),
    {
        let name = if consumer.is_default() {
            cat2(queue.as_str(), "-cursor.json")
        } else {
            cat4(queue.as_str(), "-cursor.", consumer.as_str(), ".json")
        };
        path_of(self.dir.as_str(), name.as_str())
    }

    /// The file a queue's exclusive section is held by.
    pub fn lock_path(&self, queue: &QueueName) -> (r: String)
        ensures
            r@ == path_in(path_in(self@, ".lock"@), queue@ + ".lock"@),
    {
        let name = cat2(queue.as_str(), ".lock");
        let dir = path_of(self.dir.as_str(), ".lock");
        path_of(dir.as_str(), name.as_str())
    }

    /// The file what was cut off a queue's file is told in.
    pub fn torn_path(&self, queue: &QueueName) -> (r: String)
        ensures
            r@ == path_in(self@, queue@ + ".jsonl.torn"@),
    {
        let name = cat2(queue.as_str(), ".jsonl.torn");
        path_of(self.dir.as_str(), name.as_str())
    }

    /// Where a file is cut to end on a boundary: after its last newline.
    pub fn heal(bytes: &Vec<u8>) -> (r: usize)
        ensures
            r == torn_start(bytes@, 0),
            r <= bytes@.len(),
    {
        proof {
            lemma_records_bounds(bytes@, 0);
        }
        let found = scan(bytes, 0);
        match found.torn {
            Some(at) => at,
            None => bytes.len(),
        }
    }

    /// How `record` is appended to a file that holds `bytes`: what a dead writer
    /// left torn goes, then the record and its newline are written.
    pub fn append_locked(queue: &QueueName, bytes: &Vec<u8>, record: &Vec<u8>) -> (r: Result<
        Append,
        TransportError,
    >)
        requires
            bytes@.len() + record@.len() + 1 <= u64::MAX,
        ensures
            match r {
                Ok(append) => {
                    &&& is_record(record@)
                    &&& append.boundary == torn_start(bytes@, 0)
                    &&& append.boundary + append.lost == bytes@.len()
                    &&& append.line@ == record@.push(NEWLINE)
                    &&& append.after@ == append.boundary + record@.len() + 1
                    &&& records_from(bytes@.take(append.boundary as int) + append.line@, 0)
                        == records_from(bytes@, 0).push((record@, append.after@ as int))
                },
                Err(TransportError::NotARecord { queue: named, why }) => !is_record(record@)
                    && named@ == queue@ && why@ == record_fault(record@),
                Err(_) => false,
            },
    {
        if let Err(e) = check_record(queue, record) {
            return Err(e);
        }
        let boundary = LocalTransport::heal(bytes);
        let mut line = copied_bytes(record);
        line.push(NEWLINE);
        let after = Position::from_token(boundary as u64 + record.len() as u64 + 1);
        proof {
            heal_keeps_records(bytes@, 0);
            append_then_read(bytes@.take(boundary as int), record@);
        }
        Ok(Append { boundary, lost: bytes.len() - boundary, line, after })
    }

    /// The whole records after a position of a file that holds `bytes`, at most
    /// `limit` of them, and the torn record where every whole one was read.
    pub fn read_in(queue: &QueueName, bytes: &Vec<u8>, from: Option<Position>, limit: usize) -> (r:
        Result<Batch, TransportError>)
        ensures
            match r {
                Ok(batch) => {
                    &&& !refused_position(bytes@, start_of(from))
                    &&& stored_view(batch.records@) == limited(
                        after_position(records_from(bytes@, 0), start_of(from)),
                        limit as int,
                    )
                    &&& match batch.torn {
                        Some(torn) => {
                            &&& torn.at@ == torn_start(bytes@, start_of(from))
                            &&& torn.at@ + torn.bytes == bytes@.len()
                            &&& torn.bytes > 0
                            &&& records_from(bytes@, start_of(from)).len() <= limit
                        },
                        None => torn_start(bytes@, start_of(from)) == bytes@.len()
                            || records_from(bytes@, start_of(from)).len() > limit,
                    }
                },
                Err(TransportError::PastEnd { queue: named, position, end }) => named@ == queue@
                    && position@ == start_of(from) && end@ == bytes@.len() && start_of(from)
                    > bytes@.len(),
                Err(TransportError::NotABoundary { queue: named, position }) => named@ == queue@
                    && position@ == start_of(from) && start_of(from) <= bytes@.len()
                    && !is_boundary(bytes@, start_of(from)),
                Err(_) => false,
            },
    {
        let start: u64 = match from {
            Some(position) => position.token(),
            None => 0,
        };
        let end: usize = bytes.len();
        if start > end as u64 {
            return Err(
                TransportError::PastEnd {
                    queue: queue.clone(),
                    position: Position::from_token(start),
                    end: Position::from_token(end as u64),
                },
            );
        }
        let first: usize = start as usize;
        if first > 0 && bytes[first - 1] != NEWLINE {
            return Err(
                TransportError::NotABoundary {
                    queue: queue.clone(),
                    position: Position::from_token(start),
                },
            );
        }
        let found = scan(bytes, first);
        let ghost wanted = records_from(bytes@, first as int);
        proof {
            lemma_records_after(bytes@, 0, first as int);
        }
        let mut records: Vec<Stored> = Vec::new();
        let mut i: usize = 0;
        while i < found.lines.len() && i < limit
            invariant
                i <= found.lines@.len(),
                i <= limit,
                end == bytes@.len(),
                wanted == lines_view(bytes@, found.lines@),
                forall|k: int|
                    0 <= k < found.lines@.len() ==> first <= (#[trigger] found.lines@[k]).0
                        <= found.lines@[k].1 < bytes@.len(),
                stored_view(records@) =~= wanted.take(i as int),
            decreases found.lines@.len() - i,
        {
            let ghost before = stored_view(records@);
            let line = found.lines[i];
            records.push(
                Stored {
                    bytes: bytes_between(bytes, line.0, line.1),
                    after: Position::from_token((line.1 + 1) as u64),
                },
            );
            proof {
                assert(stored_view(records@) =~= before.push(wanted[i as int]));
            }
            i += 1;
        }
        proof {
            assert(stored_view(records@) =~= limited(wanted, limit as int));
        }
        let torn = if found.lines.len() <= limit {
            match found.torn {
                Some(at) => Some(
                    TornRecord {
                        at: Position::from_token(at as u64),
                        bytes: (bytes.len() - at) as u64,
                    },
                ),
                None => None,
            }
        } else {
            None
        };
        Ok(Batch { records, torn })
    }

    /// Where a consumer that has read `count` records of a file that holds
    /// `bytes` has read up to.
    pub fn cursor_offset(bytes: &Vec<u8>, count: u64) -> (r: Position)
        ensures
            r@ == count_offset(records_from(bytes@, 0), count as int),
    {
        let found = scan(bytes, 0);
        let lines: usize = found.lines.len();
        let ghost log = records_from(bytes@, 0);
        proof {
            assert(log.len() == lines);
        }
        if count == 0 || lines == 0 {
            return Position::from_token(0);
        }
        let at: usize = if count <= lines as u64 {
            (count - 1) as usize
        } else {
            lines - 1
        };
        let line = found.lines[at];
        let end: usize = bytes.len();
        proof {
            assert(log[at as int].1 == line.1 + 1);
            assert(found.lines@[at as int].1 < end);
        }
        Position::from_token((line.1 + 1) as u64)
    }

    /// Where the cursor file's text says a consumer has read up to: nowhere for
    /// text that is no count.
    pub fn cursor_in(bytes: &Vec<u8>, text: &str) -> (r: Option<Position>)
        ensures
            match r {
                Some(at) => parsed_json(trimmed(text@)) is Ok && whole(
                    parsed_json(trimmed(text@))->Ok_0,
                ) is Some && at@ == count_offset(
                    records_from(bytes@, 0),
                    whole(parsed_json(trimmed(text@))->Ok_0)->0 as int,
                ),
                None => parsed_json(trimmed(text@)) is Err || whole(
                    parsed_json(trimmed(text@))->Ok_0,
                ) is None,
            },
    {
        let text = trim(text);
        match Json::parse(text.as_str()) {
            Err(_) => None,
            Ok(value) => match value.as_u64() {
                None => None,
                Some(count) => Some(LocalTransport::cursor_offset(bytes, count)),
            },
        }
    }

    /// How many records of a file that holds `bytes` a consumer at `at` has
    /// read.
    pub fn commit_count(queue: &QueueName, bytes: &Vec<u8>, at: Position) -> (r: Result<
        u64,
        TransportError,
    >)
        ensures
            match r {
                Ok(count) => !refused_position(bytes@, at@ as int) && count == count_before(
                    records_from(bytes@, 0),
                    at@ as int,
                ),
                Err(TransportError::PastEnd { queue: named, position, end }) => named@ == queue@
                    && position@ == at@ && end@ == bytes@.len() && at@ > bytes@.len(),
                Err(TransportError::NotABoundary { queue: named, position }) => named@ == queue@
                    && position@ == at@ && at@ <= bytes@.len() && !is_boundary(
                    bytes@,
                    at@ as int,
                ),
                Err(_) => false,
            },
    {
        let end: usize = bytes.len();
        let token: u64 = at.token();
        if token > end as u64 {
            return Err(
                TransportError::PastEnd {
                    queue: queue.clone(),
                    position: at,
                    end: Position::from_token(end as u64),
                },
            );
        }
        let offset: usize = token as usize;
        if offset > 0 && bytes[offset - 1] != NEWLINE {
            return Err(TransportError::NotABoundary { queue: queue.clone(), position: at });
        }
        let found = scan(bytes, 0);
        let ghost log = records_from(bytes@, 0);
        let ghost read = |e: (Seq<u8>, int)| e.1 <= at@ as int;
        let mut count: u64 = 0;
        let mut i: usize = 0;
        proof {
            assert(log.take(0).filter(read) =~= Seq::<(Seq<u8>, int)>::empty());
        }
        while i < found.lines.len()
            invariant
                i <= found.lines@.len(),
                offset == at@,
                log == lines_view(bytes@, found.lines@),
                read == (|e: (Seq<u8>, int)| e.1 <= at@ as int),
                count == log.take(i as int).filter(read).len(),
                count <= i,
            decreases found.lines@.len() - i,
        {
            proof {
                assert(log.take(i + 1).drop_last() =~= log.take(i as int));
                reveal_with_fuel(Seq::filter, 2);
            }
            if found.lines[i].1 < offset {
                count = count + 1;
            }
            i += 1;
        }
        proof {
            assert(log.take(i as int) =~= log);
        }
        Ok(count)
    }

    /// The text a cursor file holds for a consumer that has read `count`
    /// records.
    pub fn cursor_text(count: u64) -> (r: String)
        ensures
            r@ == decimal(count as nat),
            reads_as(r@, JsonView::Number(NumberView::Int(count as int))),
    {
        Json::whole(count).render()
    }
}

/// The records a cursor counts are the ones before it: in a log whose positions
/// run upward, those at or before `at` come first.
pub proof fn lemma_count_before(log: Seq<(Seq<u8>, int)>, at: int)
    requires
        forall|i: int, j: int|
            0 <= i < j < log.len() ==> (#[trigger] log[i]).1 < (#[trigger] log[j]).1,
    ensures
        count_before(log, at) <= log.len(),
        forall|i: int| 0 <= i < count_before(log, at) ==> (#[trigger] log[i]).1 <= at,
        forall|i: int| count_before(log, at) <= i < log.len() ==> (#[trigger] log[i]).1 > at,
    decreases log.len(),
{
    reveal_with_fuel(Seq::filter, 2);
    if log.len() > 0 {
        let shorter = log.drop_last();
        lemma_count_before(shorter, at);
        assert forall|i: int| 0 <= i < shorter.len() implies log[i] == #[trigger] shorter[i] by {}
        if log.last().1 <= at {
            assert forall|i: int| 0 <= i < shorter.len() implies (#[trigger] shorter[i]).1
                <= at by {
                assert(log[i].1 < log[log.len() - 1].1);
            }
            if count_before(shorter, at) < shorter.len() {
                assert(shorter[count_before(shorter, at) as int].1 <= at);
            }
        }
        assert forall|i: int| 0 <= i < count_before(log, at) implies (#[trigger] log[i]).1
            <= at by {
            if i < shorter.len() {
                assert(shorter[i].1 <= at);
            }
        }
        assert forall|i: int| count_before(log, at) <= i < log.len() implies (#[trigger] log[i]).1
            > at by {
            if i < shorter.len() {
                assert(shorter[i].1 > at);
            }
        }
    }
}

/// What a consumer commits is where it next reads from: the cursor a commit
/// leaves has the same records after it as the position committed, and is that
/// position wherever a record ends there.
pub proof fn commit_then_cursor(bytes: Seq<u8>, at: int)
    requires
        is_boundary(bytes, at),
    ensures
        ({
            let log = records_from(bytes, 0);
            let cursor = count_offset(log, count_before(log, at) as int);
            &&& after_position(log, cursor) == after_position(log, at)
            &&& cursor <= at
            &&& (exists|i: int| 0 <= i < log.len() && (#[trigger] log[i]).1 == at) ==> cursor == at
        }),
{
    let log = records_from(bytes, 0);
    lemma_records_bounds(bytes, 0);
    lemma_count_before(log, at);
    let count = count_before(log, at) as int;
    let cursor = count_offset(log, count);
    let past_cursor = |e: (Seq<u8>, int)| e.1 > cursor;
    let past_at = |e: (Seq<u8>, int)| e.1 > at;
    assert forall|i: int| 0 <= i < log.len() implies past_cursor(#[trigger] log[i]) == past_at(
        log[i],
    ) by {
        if i < count {
            assert(log[i].1 <= log[count - 1].1);
        } else if count > 0 {
            assert(log[count - 1].1 < log[i].1);
        }
    }
    lemma_filter_same(log, past_cursor, past_at);
    if exists|i: int| 0 <= i < log.len() && (#[trigger] log[i]).1 == at {
        let i = choose|i: int| 0 <= i < log.len() && (#[trigger] log[i]).1 == at;
        assert(i < count);
        if i < count - 1 {
            assert(log[i].1 < log[count - 1].1);
        }
    }
}

/// Two tests that agree on every item keep the same ones.
pub proof fn lemma_filter_same<A>(items: Seq<A>, p: spec_fn(A) -> bool, q: spec_fn(A) -> bool)
    requires
        forall|i: int| 0 <= i < items.len() ==> p(#[trigger] items[i]) == q(items[i]),
    ensures
        items.filter(p) == items.filter(q),
    decreases items.len(),
{
    reveal(Seq::filter);
    if items.len() > 0 {
        lemma_filter_same(items.drop_last(), p, q);
    }
}

/// A cursor is not moved by what is appended after it: the records a consumer
/// has read stay the ones counted.
pub proof fn cursor_survives_append(bytes: Seq<u8>, record: Seq<u8>, count: int)
    requires
        is_record(record),
        torn_start(bytes, 0) == bytes.len(),
        0 <= count <= records_from(bytes, 0).len(),
    ensures
        count_offset(records_from(bytes + record.push(NEWLINE), 0), count) == count_offset(
            records_from(bytes, 0),
            count,
        ),
{
    append_then_read(bytes, record);
}

proof fn lemma_path_names(dir: Seq<char>, a: Seq<char>, b: Seq<char>)
    ensures
        path_in(dir, a) == path_in(dir, b) ==> a == b,
{
    let within = if dir.len() == 0 || dir.last() == '/' {
        dir
    } else {
        dir + "/"@
    };
    if path_in(dir, a) == path_in(dir, b) {
        assert(path_in(dir, a) =~= within + a);
        assert(path_in(dir, b) =~= within + b);
        let count = within.len() as int;
        assert((within + a).skip(count) =~= a);
        assert((within + b).skip(count) =~= b);
    }
}

/// What stands before the first dot of a text, and what follows it, are the text's own.
proof fn lemma_before_dot(a: Seq<char>, rest: Seq<char>, b: Seq<char>, other: Seq<char>)
    requires
        forall|i: int| 0 <= i < a.len() ==> (#[trigger] a[i]) != '.',
        forall|i: int| 0 <= i < b.len() ==> (#[trigger] b[i]) != '.',
        a + seq!['.'] + rest == b + seq!['.'] + other,
    ensures
        a == b,
        rest == other,
{
    let one = a + seq!['.'] + rest;
    let two = b + seq!['.'] + other;
    assert(one[a.len() as int] == '.');
    assert(two[b.len() as int] == '.');
    if a.len() < b.len() {
        assert(two[a.len() as int] == b[a.len() as int]);
    }
    if b.len() < a.len() {
        assert(one[b.len() as int] == a[b.len() as int]);
    }
    assert(one.take(a.len() as int) =~= a);
    assert(two.take(b.len() as int) =~= b);
    assert(one.skip(a.len() as int + 1) =~= rest);
    assert(two.skip(b.len() as int + 1) =~= other);
}

/// What follows the first dot of a cursor file's name.
spec fn cursor_rest(consumer: Seq<char>) -> Seq<char> {
    if consumer == DEFAULT_CONSUMER@ {
        "json"@
    } else {
        consumer + ".json"@
    }
}

proof fn lemma_cursor_name(queue: Seq<char>, consumer: Seq<char>)
    requires
        is_name(queue, false),
    ensures
        cursor_name(queue, consumer) == queue + "-cursor"@ + seq!['.'] + cursor_rest(consumer),
        forall|i: int| 0 <= i < (queue + "-cursor"@).len() ==> (#[trigger] (queue + "-cursor"@)[i]) != '.',
{
    reveal_strlit("-cursor");
    reveal_strlit("-cursor.");
    reveal_strlit("-cursor.json");
    reveal_strlit("json");
    assert("-cursor."@ =~= "-cursor"@ + seq!['.']);
    assert("-cursor.json"@ =~= "-cursor"@ + seq!['.'] + "json"@);
    assert(cursor_name(queue, consumer) =~= queue + "-cursor"@ + seq!['.'] + cursor_rest(consumer));
    let before = queue + "-cursor"@;
    assert forall|i: int| 0 <= i < before.len() implies (#[trigger] before[i]) != '.' by {
        if i < queue.len() {
            assert(before[i] == queue[i]);
            assert(is_name_char(queue[i], false));
        } else {
            assert(before[i] == "-cursor"@[i - queue.len()]);
        }
    }
}

/// Every consumer of every queue keeps its cursor in a file of its own.
pub proof fn cursor_files_differ(
    dir: Seq<char>,
    queue: Seq<char>,
    consumer: Seq<char>,
    other_queue: Seq<char>,
    other: Seq<char>,
)
    requires
        is_name(queue, false),
        is_name(consumer, false),
        is_name(other_queue, false),
        is_name(other, false),
        queue != other_queue || consumer != other,
    ensures
        path_in(dir, cursor_name(queue, consumer)) != path_in(dir, cursor_name(other_queue, other)),
{
    let one = cursor_name(queue, consumer);
    let two = cursor_name(other_queue, other);
    lemma_path_names(dir, one, two);
    if one == two {
        lemma_cursor_name(queue, consumer);
        lemma_cursor_name(other_queue, other);
        let a = queue + "-cursor"@;
        let b = other_queue + "-cursor"@;
        lemma_before_dot(a, cursor_rest(consumer), b, cursor_rest(other));
        assert(a.take(queue.len() as int) =~= queue);
        assert(b.take(other_queue.len() as int) =~= other_queue);
        reveal_strlit("json");
        reveal_strlit(".json");
        let x = consumer + ".json"@;
        let y = other + ".json"@;
        assert(x.take(consumer.len() as int) =~= consumer);
        assert(y.take(other.len() as int) =~= other);
        assert(false);
    }
}

/// No cursor is kept in a file of records.
pub proof fn cursor_is_no_log(
    dir: Seq<char>,
    queue: Seq<char>,
    consumer: Seq<char>,
    other_queue: Seq<char>,
)
    requires
        is_name(queue, false),
        is_name(consumer, false),
        is_name(other_queue, false),
    ensures
        path_in(dir, cursor_name(queue, consumer)) != path_in(dir, records_name(other_queue)),
{
    let one = cursor_name(queue, consumer);
    let two = records_name(other_queue);
    lemma_path_names(dir, one, two);
    if one == two {
        lemma_cursor_name(queue, consumer);
        reveal_strlit(".jsonl");
        reveal_strlit("jsonl");
        reveal_strlit("json");
        reveal_strlit(".json");
        assert(".jsonl"@ =~= seq!['.'] + "jsonl"@);
        assert(two =~= other_queue + seq!['.'] + "jsonl"@);
        assert forall|i: int| 0 <= i < other_queue.len() implies (#[trigger] other_queue[i])
            != '.' by {
            assert(is_name_char(other_queue[i], false));
        }
        lemma_before_dot(
            queue + "-cursor"@,
            cursor_rest(consumer),
            other_queue,
            "jsonl"@,
        );
        assert(cursor_rest(consumer).len() != 5);
        assert("jsonl"@.len() == 5);
        assert(false);
    }
}

} // verus!
