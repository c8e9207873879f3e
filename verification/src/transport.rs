//! Where queues are kept: the promises a transport makes, and a transport in
//! memory that keeps them.

use crate::framing::{
    after_position, blank_line, copied_bytes, holds_newline, is_blank_line, is_record,
    lemma_filter_all, lemma_filter_none,
};
use crate::names::{ConsumerName, DocumentName, Fingerprint, Position, QueueName};
use crate::table::{Table, in_order, inserted, lemma_lookup_inserted, lemma_lookup_take, lookup};
use crate::text::{cat3, cat4, cat6, decimal, quoted, quoted_of};
use vstd::prelude::*;

verus! {

/// Why a transport did not do what it was asked.
#[derive(Debug, PartialEq, Eq)]
pub enum TransportError {
    /// A file or directory could not be used.
    Io {
        /// What was being done.
        action: String,
        /// To what.
        path: String,
        /// What the host said.
        source: String,
    },
    /// Bytes that are not a record.
    NotARecord {
        /// The queue.
        queue: QueueName,
        /// What is wrong with them.
        why: String,
    },
    /// A position past the end of the queue.
    PastEnd {
        /// The queue.
        queue: QueueName,
        /// The position asked for.
        position: Position,
        /// Where the queue ends.
        end: Position,
    },
    /// A position no record starts at.
    NotABoundary {
        /// The queue.
        queue: QueueName,
        /// The position asked for.
        position: Position,
    },
    /// The transport's own failure.
    Backend {
        /// The transport.
        transport: String,
        /// What it said.
        detail: String,
    },
    /// A configuration the transport's kind refuses.
    Config {
        /// The kind.
        kind: String,
        /// What is wrong.
        why: String,
    },
    /// A kind nothing serves.
    UnknownKind {
        /// The kind.
        kind: String,
        /// The kinds there are.
        known: String,
    },
}

/// A failure in words.
pub open spec fn error_words(error: TransportError) -> Seq<char> {
    match error {
        TransportError::Io { action, path, source } => "cannot "@ + action@ + " "@ + path@ + ": "@
            + source@,
        TransportError::NotARecord { queue, why } => queue@
            + ": a record is one non-empty line of bytes, and this one "@ + why@,
        TransportError::PastEnd { queue, position, end } => queue@ + ": position "@ + decimal(
            position@ as nat,
        ) + " is past the end of the queue, which ends at "@ + decimal(end@ as nat)
            + "; the log was replaced or truncated"@,
        TransportError::NotABoundary { queue, position } => queue@ + ": position "@ + decimal(
            position@ as nat,
        ) + " is not a record boundary"@,
        TransportError::Backend { transport, detail } => "the "@ + transport@ + " transport: "@
            + detail@,
        TransportError::Config { kind, why } => why@,
        TransportError::UnknownKind { kind, known } => quoted(kind@)
            + " is not a transport kind this build can open; the kinds there are: "@ + known@
            + ". A plugin serves a kind as an executable named onemessagebus-transport-<kind> on PATH"@,
    }
}

impl TransportError {
    /// The failure in words.
    pub fn message(&self) -> (r: String)
        ensures
            r@ == error_words(*self),
    {
        match self {
            TransportError::Io { action, path, source } => cat6(
                "cannot ",
                action.as_str(),
                " ",
                path.as_str(),
                ": ",
                source.as_str(),
            ),
            TransportError::NotARecord { queue, why } => cat3(
                queue.as_str(),
                ": a record is one non-empty line of bytes, and this one ",
                why.as_str(),
            ),
            TransportError::PastEnd { queue, position, end } => {
                let position = position.to_text();
                let end = end.to_text();
                cat6(
                    queue.as_str(),
                    ": position ",
                    position.as_str(),
                    " is past the end of the queue, which ends at ",
                    end.as_str(),
                    "; the log was replaced or truncated",
                )
            },
            TransportError::NotABoundary { queue, position } => {
                let position = position.to_text();
                cat4(queue.as_str(), ": position ", position.as_str(), " is not a record boundary")
            },
            TransportError::Backend { transport, detail } => cat4(
                "the ",
                transport.as_str(),
                " transport: ",
                detail.as_str(),
            ),
            TransportError::Config { kind: _, why } => why.clone(),
            TransportError::UnknownKind { kind, known } => {
                let kind = quoted_of(kind.as_str());
                cat4(
                    kind.as_str(),
                    " is not a transport kind this build can open; the kinds there are: ",
                    known.as_str(),
                    ". A plugin serves a kind as an executable named onemessagebus-transport-<kind> on PATH",
                )
            },
        }
    }
}

/// A record as a transport keeps it.
#[derive(Debug, PartialEq, Eq)]
pub struct Stored {
    /// The record.
    pub bytes: Vec<u8>,
    /// The position after it.
    pub after: Position,
}

/// A record a writer has not finished.
#[derive(Debug, Clone, Copy, PartialEq, Eq)]
pub struct TornRecord {
    /// Where it starts.
    pub at: Position,
    /// How many bytes of it there are.
    pub bytes: u64,
}

/// The records a read found.
#[derive(Debug, PartialEq, Eq)]
pub struct Batch {
    /// The whole records, oldest first.
    pub records: Vec<Stored>,
    /// The torn record after them.
    pub torn: Option<TornRecord>,
}

/// Records, each with the position after it.
pub open spec fn stored_view(records: Seq<Stored>) -> Seq<(Seq<u8>, int)> {
    Seq::new(records.len(), |i: int| (records[i].bytes@, records[i].after@ as int))
}

/// The first `limit` of `log`, or all of it.
pub open spec fn limited(log: Seq<(Seq<u8>, int)>, limit: int) -> Seq<(Seq<u8>, int)> {
    if limit < log.len() {
        log.take(limit)
    } else {
        log
    }
}

/// Whether positions run upward through `log`, none past `end`.
pub open spec fn is_ordered(log: Seq<(Seq<u8>, int)>, end: int) -> bool {
    &&& forall|i: int| 0 <= i < log.len() ==> 0 < (#[trigger] log[i]).1 <= end
    &&& forall|i: int, j: int|
        0 <= i < j < log.len() ==> (#[trigger] log[i]).1 < (#[trigger] log[j]).1
}

/// The position a read starts after: the start, when none is given.
pub open spec fn start_of(from: Option<Position>) -> int {
    match from {
        Some(position) => position@ as int,
        None => 0,
    }
}

/// What is wrong with bytes that are not a record.
pub open spec fn record_fault(bytes: Seq<u8>) -> Seq<char> {
    if is_blank_line(bytes) {
        "is empty"@
    } else {
        "holds a newline"@
    }
}

/// Where queues are kept: an ordered log of records for each queue, a cursor
/// for each of its consumers, and named documents beside it.
///
/// A call here is one made with the queue's exclusive section held: nothing
/// else writes between what it sees and what it does.
pub trait Transport: Sized {
    /// Whether the transport's own account of its queues is in order.
    spec fn sound(&self) -> bool;

    /// The whole records of a queue, oldest first, each with the position after
    /// it.
    spec fn log(&self, queue: Seq<char>) -> Seq<(Seq<u8>, int)>;

    /// Where a queue ends.
    spec fn end(&self, queue: Seq<char>) -> int;

    /// Whether a record may start at a position.
    spec fn boundary(&self, queue: Seq<char>, at: int) -> bool;

    /// Where a consumer has read up to.
    spec fn cursor_of(&self, queue: Seq<char>, consumer: Seq<char>) -> Option<int>;

    /// What a document holds.
    spec fn document_of(&self, queue: Seq<char>, name: Seq<char>) -> Option<Seq<u8>>;

    /// The torn record after a queue's whole ones: where it starts, and how many bytes
    /// it has.
    spec fn torn(&self, queue: Seq<char>) -> Option<(int, int)>;

    /// A queue's change token: equal while nothing observable about the queue moved.
    spec fn token(&self, queue: Seq<char>) -> Seq<u64>;

    /// Whether a consumer's cursor counts more records than its queue holds: it is
    /// then where the queue ends, whatever is appended.
    spec fn overruns(&self, queue: Seq<char>, consumer: Seq<char>) -> bool;

    /// Whether it does all that it is asked, refusing only what is no record and what is
    /// no position.
    spec fn reliable(&self) -> bool;

    /// A queue's positions run upward, each a boundary, from the start on, and its
    /// consumers have read up to one.
    proof fn positions_are_ordered(&self, queue: Seq<char>)
        requires
            self.sound(),
        ensures
            is_ordered(self.log(queue), self.end(queue)),
            self.log(queue).len() <= usize::MAX,
            self.boundary(queue, 0),
            0 <= self.end(queue) <= u64::MAX,
            forall|i: int|
                0 <= i < self.log(queue).len() ==> self.boundary(
                    queue,
                    (#[trigger] self.log(queue)[i]).1,
                ),
            forall|c: Seq<char>|
                (#[trigger] self.cursor_of(queue, c)) is Some ==> {
                    &&& 0 <= self.cursor_of(queue, c)->0 <= self.end(queue)
                    &&& self.boundary(queue, self.cursor_of(queue, c)->0)
                },
    ;

    /// Append a record to a queue.
    fn append(&mut self, queue: &QueueName, record: &Vec<u8>) -> (r: Result<
        Position,
        TransportError,
    >)
        requires
            old(self).sound(),
        ensures
            final(self).sound(),
            final(self).reliable() == old(self).reliable(),
            match r {
                Ok(after) => {
                    &&& is_record(record@)
                    &&& final(self).log(queue@) == old(self).log(queue@).push(
                        (record@, after@ as int),
                    )
                    &&& forall|q: Seq<char>|
                        q != queue@ ==> #[trigger] final(self).log(q) == old(self).log(q)
                    &&& final(self).torn(queue@) is None
                    &&& forall|q: Seq<char>|
                        q != queue@ ==> #[trigger] final(self).end(q) == old(self).end(q)
                    &&& forall|q: Seq<char>|
                        q != queue@ ==> #[trigger] final(self).torn(q) == old(self).torn(q)
                    &&& forall|q: Seq<char>|
                        q != queue@ ==> #[trigger] final(self).token(q) == old(self).token(q)
                    &&& forall|q: Seq<char>, at: int|
                        q != queue@ ==> #[trigger] final(self).boundary(q, at) == old(
                            self,
                        ).boundary(q, at)
                    &&& forall|q: Seq<char>, c: Seq<char>|
                        !(q == queue@ && old(self).overruns(q, c)) ==> #[trigger] final(self).cursor_of(
                            q,
                            c,
                        ) == old(self).cursor_of(q, c)
                    &&& forall|q: Seq<char>, c: Seq<char>| #[trigger]
                        final(self).overruns(q, c) ==> old(self).overruns(q, c)
                    &&& forall|c: Seq<char>|
                        old(self).overruns(queue@, c) ==> #[trigger] final(self).cursor_of(
                            queue@,
                            c,
                        ) == Some(after@ as int)
                    &&& forall|q: Seq<char>, n: Seq<char>| #[trigger]
                        final(self).document_of(q, n) == old(self).document_of(q, n)
                },
                Err(TransportError::NotARecord { queue: named, why }) => {
                    &&& !is_record(record@)
                    &&& named@ == queue@
                    &&& why@ == record_fault(record@)
                    &&& *final(self) == *old(self)
                },
                Err(_) => is_record(record@) && !old(self).reliable(),
            },
    ;

    /// The whole records after a position, at most `limit` of them, and the torn
    /// record after them where none was left out.
    fn read(&self, queue: &QueueName, from: Option<Position>, limit: usize) -> (r: Result<
        Batch,
        TransportError,
    >)
        requires
            self.sound(),
        ensures
            match r {
                Ok(batch) => {
                    &&& start_of(from) <= self.end(queue@)
                    &&& self.boundary(queue@, start_of(from))
                    &&& stored_view(batch.records@) == limited(
                        after_position(self.log(queue@), start_of(from)),
                        limit as int,
                    )
                    &&& torn_view(batch.torn) == torn_after(
                        self.torn(queue@),
                        after_position(self.log(queue@), start_of(from)).len() as int,
                        limit as int,
                    )
                },
                Err(TransportError::PastEnd { queue: named, position, end }) => {
                    &&& named@ == queue@
                    &&& position@ == start_of(from)
                    &&& end@ == self.end(queue@)
                    &&& start_of(from) > self.end(queue@)
                },
                Err(TransportError::NotABoundary { queue: named, position }) => {
                    &&& named@ == queue@
                    &&& position@ == start_of(from)
                    &&& start_of(from) <= self.end(queue@)
                    &&& !self.boundary(queue@, start_of(from))
                },
                Err(_) => !self.reliable(),
            },
    ;

    /// Where a consumer has read up to; nothing for one that has read nothing.
    fn cursor(&self, queue: &QueueName, consumer: &ConsumerName) -> (r: Result<
        Option<Position>,
        TransportError,
    >)
        requires
            self.sound(),
        ensures
            match r {
                Ok(Some(at)) => self.cursor_of(queue@, consumer@) == Some(at@ as int),
                Ok(None) => self.cursor_of(queue@, consumer@) is None,
                Err(_) => !self.reliable(),
            },
    ;

    /// Record that a consumer has read up to a position.
    fn commit(&mut self, queue: &QueueName, consumer: &ConsumerName, at: Position) -> (r: Result<
        (),
        TransportError,
    >)
        requires
            old(self).sound(),
        ensures
            final(self).sound(),
            final(self).reliable() == old(self).reliable(),
            match r {
                Ok(()) => {
                    &&& at@ <= old(self).end(queue@)
                    &&& old(self).boundary(queue@, at@ as int)
                    &&& final(self).cursor_of(queue@, consumer@) is Some
                    &&& after_position(
                        final(self).log(queue@),
                        final(self).cursor_of(queue@, consumer@)->0,
                    ) == after_position(old(self).log(queue@), at@ as int)
                    &&& forall|q: Seq<char>| #[trigger]
                        final(self).log(q) == old(self).log(q)
                    &&& !final(self).overruns(queue@, consumer@)
                    &&& final(self).torn(queue@) == old(self).torn(queue@)
                    &&& forall|q: Seq<char>|
                        q != queue@ ==> #[trigger] final(self).end(q) == old(self).end(q)
                    &&& forall|q: Seq<char>|
                        q != queue@ ==> #[trigger] final(self).torn(q) == old(self).torn(q)
                    &&& forall|q: Seq<char>|
                        q != queue@ ==> #[trigger] final(self).token(q) == old(self).token(q)
                    &&& forall|q: Seq<char>, at: int|
                        q != queue@ ==> #[trigger] final(self).boundary(q, at) == old(
                            self,
                        ).boundary(q, at)
                    &&& forall|q: Seq<char>, c: Seq<char>|
                        !(q == queue@ && c == consumer@) ==> #[trigger] final(self).overruns(q, c)
                            == old(self).overruns(q, c)
                    &&& forall|q: Seq<char>, c: Seq<char>|
                        !(q == queue@ && c == consumer@) ==> #[trigger] final(self).cursor_of(q, c)
                            == old(self).cursor_of(q, c)
                    &&& forall|q: Seq<char>, n: Seq<char>| #[trigger]
                        final(self).document_of(q, n) == old(self).document_of(q, n)
                },
                Err(TransportError::PastEnd { queue: named, position, end }) => {
                    &&& named@ == queue@
                    &&& position@ == at@
                    &&& end@ == old(self).end(queue@)
                    &&& at@ > old(self).end(queue@)
                },
                Err(TransportError::NotABoundary { queue: named, position }) => {
                    &&& named@ == queue@
                    &&& position@ == at@
                    &&& at@ <= old(self).end(queue@)
                    &&& !old(self).boundary(queue@, at@ as int)
                },
                Err(_) => !old(self).reliable(),
            },
    ;

    /// A queue's change token.
    fn fingerprint(&self, queue: &QueueName) -> (r: Result<Fingerprint, TransportError>)
        requires
            self.sound(),
        ensures
            match r {
                Ok(fingerprint) => fingerprint@ == self.token(queue@),
                Err(_) => !self.reliable(),
            },
    ;

    /// What a document beside a queue holds.
    fn document(&self, queue: &QueueName, name: &DocumentName) -> (r: Result<
        Option<Vec<u8>>,
        TransportError,
    >)
        requires
            self.sound(),
        ensures
            match r {
                Ok(Some(bytes)) => self.document_of(queue@, name@) == Some(bytes@),
                Ok(None) => self.document_of(queue@, name@) is None,
                Err(_) => !self.reliable(),
            },
    ;

    /// Replace what a document beside a queue holds.
    fn replace_document(&mut self, queue: &QueueName, name: &DocumentName, bytes: &Vec<u8>) -> (r:
        Result<(), TransportError>)
        requires
            old(self).sound(),
        ensures
            final(self).sound(),
            final(self).reliable() == old(self).reliable(),
            forall|q: Seq<char>| #[trigger] final(self).log(q) == old(self).log(q),
            forall|q: Seq<char>, c: Seq<char>| #[trigger]
                final(self).cursor_of(q, c) == old(self).cursor_of(q, c),
            forall|q: Seq<char>, c: Seq<char>| #[trigger]
                final(self).overruns(q, c) == old(self).overruns(q, c),
            forall|q: Seq<char>| #[trigger] final(self).end(q) == old(self).end(q),
            forall|q: Seq<char>| #[trigger] final(self).torn(q) == old(self).torn(q),
            forall|q: Seq<char>| #[trigger] final(self).token(q) == old(self).token(q),
            forall|q: Seq<char>, at: int| #[trigger]
                final(self).boundary(q, at) == old(self).boundary(q, at),
            forall|q: Seq<char>, n: Seq<char>|
                n != name@ ==> #[trigger] final(self).document_of(q, n) == old(self).document_of(
                    q,
                    n,
                ),
            match r {
                Ok(()) => final(self).document_of(queue@, name@) == Some(bytes@),
                Err(_) => !old(self).reliable(),
            },
    ;
}

/// What a torn record is: where it starts, and how many bytes it has.
pub open spec fn torn_view(torn: Option<TornRecord>) -> Option<(int, int)> {
    match torn {
        Some(torn) => Some((torn.at@ as int, torn.bytes as int)),
        None => None,
    }
}

/// The torn record a read of `left` records, at most `limit` of them, reports: the
/// queue's, never dropped, once every whole record before it was read.
pub open spec fn torn_after(torn: Option<(int, int)>, left: int, limit: int) -> Option<(int, int)> {
    if left <= limit {
        torn
    } else {
        None
    }
}

/// Whether every queue but `queue` stands as it did.
pub open spec fn keeps_others<T: Transport>(before: T, after: T, queue: Seq<char>) -> bool {
    &&& forall|q: Seq<char>| q != queue ==> #[trigger] after.end(q) == before.end(q)
    &&& forall|q: Seq<char>| q != queue ==> #[trigger] after.torn(q) == before.torn(q)
    &&& forall|q: Seq<char>| q != queue ==> #[trigger] after.token(q) == before.token(q)
    &&& forall|q: Seq<char>, at: int|
        q != queue ==> #[trigger] after.boundary(q, at) == before.boundary(q, at)
}

/// Whether every cursor stands where it did, but for those of `queue` that count more
/// records than it holds.
pub open spec fn keeps_cursors<T: Transport>(before: T, after: T, queue: Seq<char>) -> bool {
    &&& forall|q: Seq<char>, c: Seq<char>|
        !(q == queue && before.overruns(q, c)) ==> #[trigger] after.cursor_of(q, c)
            == before.cursor_of(q, c)
    &&& forall|q: Seq<char>, c: Seq<char>| #[trigger]
        after.overruns(q, c) ==> before.overruns(q, c)
}

/// Refuses bytes that are not a record: a blank line, or more than one.
pub fn check_record(queue: &QueueName, record: &Vec<u8>) -> (r: Result<(), TransportError>)
    ensures
        match r {
            Ok(()) => is_record(record@),
            Err(TransportError::NotARecord { queue: named, why }) => !is_record(record@) && named@
                == queue@ && why@ == record_fault(record@),
            Err(_) => false,
        },
{
    if blank_line(record) {
        return Err(
            TransportError::NotARecord { queue: queue.clone(), why: "is empty".to_owned() },
        );
    }
    if holds_newline(record) {
        return Err(
            TransportError::NotARecord { queue: queue.clone(), why: "holds a newline".to_owned() },
        );
    }
    Ok(())
}

// ---------------------------------------------------------------------------
// The memory transport.
// ---------------------------------------------------------------------------

/// A transport in memory: a position is the number of records before it.
#[derive(Debug)]
pub struct MemoryTransport {
    records: Table<Vec<Vec<u8>>>,
    cursors: Table<Table<u64>>,
    documents: Table<Vec<u8>>,
    generations: Table<u64>,
}

/// The records `kept` are, each with the number of records up to it.
pub open spec fn counted(kept: Seq<Vec<u8>>) -> Seq<(Seq<u8>, int)> {
    Seq::new(kept.len(), |i: int| (kept[i]@, i + 1))
}

impl MemoryTransport {
    /// The records kept for a queue.
    pub closed spec fn kept(&self, queue: Seq<char>) -> Seq<Vec<u8>> {
        match lookup(self.records@, queue) {
            Some(kept) => kept@,
            None => Seq::empty(),
        }
    }

    /// How many times anything about a queue changed.
    pub closed spec fn generation(&self, queue: Seq<char>) -> u64 {
        match lookup(self.generations@, queue) {
            Some(n) => n,
            None => 0,
        }
    }

    /// An empty store.
    pub fn new() -> (r: Self)
        ensures
            r.sound(),
            forall|q: Seq<char>| #[trigger] r.log(q) == Seq::<(Seq<u8>, int)>::empty(),
            forall|q: Seq<char>, c: Seq<char>| #[trigger] r.cursor_of(q, c) is None,
            forall|q: Seq<char>, n: Seq<char>| #[trigger] r.document_of(q, n) is None,
            forall|q: Seq<char>| #[trigger] r.generation(q) == 0,
    {
        let r = MemoryTransport {
            records: Table::new(),
            cursors: Table::new(),
            documents: Table::new(),
            generations: Table::new(),
        };
        proof {
            assert forall|q: Seq<char>| #[trigger]
                r.log(q) == Seq::<(Seq<u8>, int)>::empty() by {
                assert(r.log(q) =~= Seq::<(Seq<u8>, int)>::empty());
            }
        }
        r
    }

    /// How many times anything about a queue changed.
    fn generation_of(&self, queue: &str) -> (r: u64)
        ensures
            r == self.generation(queue@),
    {
        match self.generations.get(queue) {
            Some(n) => *n,
            None => 0,
        }
    }

    /// Counts a change of `queue`.
    fn bump(&mut self, queue: &str)
        ensures
            final(self).records == old(self).records,
            final(self).cursors == old(self).cursors,
            final(self).documents == old(self).documents,
            final(self).generation(queue@) == if old(self).generation(queue@) < u64::MAX {
                (old(self).generation(queue@) + 1) as u64
            } else {
                u64::MAX
            },
            forall|q: Seq<char>|
                q != queue@ ==> #[trigger] final(self).generation(q) == old(self).generation(q),
    {
        let now: u64 = self.generation_of(queue);
        let next: u64 = now.saturating_add(1);
        self.generations.ordered();
        proof {
            assert forall|q: Seq<char>| #[trigger]
                lookup(inserted(self.generations@, queue@, next), q) == if q == queue@ {
                    Some(next)
                } else {
                    lookup(self.generations@, q)
                } by {
                lemma_lookup_inserted(self.generations@, queue@, next, q);
            }
        }
        self.generations.insert(queue, next);
    }

    /// The records kept for a queue, copied.
    fn kept_of(&self, queue: &str) -> (r: Vec<Vec<u8>>)
        ensures
            counted(r@) == counted(self.kept(queue@)),
    {
        let mut out: Vec<Vec<u8>> = Vec::new();
        match self.records.get(queue) {
            None => {
                proof {
                    assert(counted(out@) =~= counted(self.kept(queue@)));
                }
                out
            },
            Some(kept) => {
                let mut i: usize = 0;
                while i < kept.len()
                    invariant
                        i <= kept@.len(),
                        counted(out@) =~= counted(kept@).take(i as int),
                    decreases kept@.len() - i,
                {
                    let ghost before = counted(out@);
                    out.push(copied_bytes(&kept[i]));
                    proof {
                        assert(counted(out@) =~= before.push(counted(kept@)[i as int]));
                    }
                    i += 1;
                }
                proof {
                    assert(counted(out@) =~= counted(kept@));
                }
                out
            },
        }
    }
}

proof fn lemma_counted_after(kept: Seq<Vec<u8>>, from: int)
    requires
        0 <= from <= kept.len(),
    ensures
        after_position(counted(kept), from) == counted(kept).skip(from),
{
    let all = counted(kept);
    let past = |e: (Seq<u8>, int)| e.1 > from;
    assert(all =~= all.take(from) + all.skip(from));
    Seq::filter_distributes_over_add(all.take(from), all.skip(from), past);
    lemma_filter_none(all.take(from), past);
    lemma_filter_all(all.skip(from), past);
    assert(Seq::<(Seq<u8>, int)>::empty() + all.skip(from) =~= all.skip(from));
}

impl Transport for MemoryTransport {
    closed spec fn sound(&self) -> bool {
        forall|q: Seq<char>, c: Seq<char>|
            (#[trigger] self.cursor_of(q, c)) is Some ==> self.cursor_of(q, c)->0 <= self.kept(
                q,
            ).len()
    }

    open spec fn reliable(&self) -> bool {
        true
    }

    open spec fn torn(&self, queue: Seq<char>) -> Option<(int, int)> {
        None
    }

    open spec fn token(&self, queue: Seq<char>) -> Seq<u64> {
        seq![self.generation(queue)]
    }

    open spec fn overruns(&self, queue: Seq<char>, consumer: Seq<char>) -> bool {
        false
    }

    closed spec fn log(&self, queue: Seq<char>) -> Seq<(Seq<u8>, int)> {
        counted(self.kept(queue))
    }

    closed spec fn end(&self, queue: Seq<char>) -> int {
        self.kept(queue).len() as int
    }

    closed spec fn boundary(&self, queue: Seq<char>, at: int) -> bool {
        true
    }

    closed spec fn cursor_of(&self, queue: Seq<char>, consumer: Seq<char>) -> Option<int> {
        match lookup(self.cursors@, queue) {
            Some(of_queue) => match lookup(of_queue@, consumer) {
                Some(at) => Some(at as int),
                None => None,
            },
            None => None,
        }
    }

    closed spec fn document_of(&self, queue: Seq<char>, name: Seq<char>) -> Option<Seq<u8>> {
        match lookup(self.documents@, name) {
            Some(bytes) => Some(bytes@),
            None => None,
        }
    }

    proof fn positions_are_ordered(&self, queue: Seq<char>) {
        if let Some(kept) = lookup(self.records@, queue) {
            assert(kept.len() as int == kept@.len());
        }
    }

    fn append(&mut self, queue: &QueueName, record: &Vec<u8>) -> (r: Result<
        Position,
        TransportError,
    >)
        ensures
            r is Ok <==> is_record(record@),
            r is Ok ==> r->Ok_0@ == old(self).log(queue@).len() + 1,
            r is Ok ==> final(self).generation(queue@) >= old(self).generation(queue@) && (old(
                self,
            ).generation(queue@) < u64::MAX ==> final(self).generation(queue@) == old(
                self,
            ).generation(queue@) + 1),
    {
        if let Err(e) = check_record(queue, record) {
            return Err(e);
        }
        let mut kept = self.kept_of(queue.as_str());
        let ghost before = counted(kept@);
        kept.push(copied_bytes(record));
        let count: usize = kept.len();
        self.records.ordered();
        proof {
            assert(counted(kept@) =~= before.push((record@, count as int)));
            assert(before.len() == counted(self.kept(queue@)).len());
            assert forall|q: Seq<char>| #[trigger]
                lookup(inserted(self.records@, queue@, kept), q) == if q == queue@ {
                    Some(kept)
                } else {
                    lookup(self.records@, q)
                } by {
                lemma_lookup_inserted(self.records@, queue@, kept, q);
            }
        }
        self.records.insert(queue.as_str(), kept);
        self.bump(queue.as_str());
        proof {
            assert forall|q: Seq<char>, c: Seq<char>| (
            #[trigger] self.cursor_of(q, c)) is Some implies self.cursor_of(q, c)->0 <= self.kept(
                q,
            ).len() by {
                assert(self.cursor_of(q, c) == old(self).cursor_of(q, c));
                assert(counted(self.kept(q)).len() >= counted(old(self).kept(q)).len());
            }
        }
        Ok(Position::from_token(count as u64))
    }

    fn read(&self, queue: &QueueName, from: Option<Position>, limit: usize) -> (r: Result<
        Batch,
        TransportError,
    >)
        ensures
            r is Ok <==> start_of(from) <= self.end(queue@),
            r is Ok ==> r->Ok_0.torn is None,
    {
        let kept = self.kept_of(queue.as_str());
        proof {
            assert(counted(kept@).len() == counted(self.kept(queue@)).len());
        }
        let start: u64 = match from {
            Some(position) => position.token(),
            None => 0,
        };
        let end: usize = kept.len();
        if start > end as u64 {
            return Err(
                TransportError::PastEnd {
                    queue: queue.clone(),
                    position: Position::from_token(start),
                    end: Position::from_token(end as u64),
                },
            );
        }
        let first: usize = start as usize;
        proof {
            lemma_counted_after(self.kept(queue@), start as int);
        }
        let ghost wanted = counted(kept@).skip(first as int);
        let mut records: Vec<Stored> = Vec::new();
        let mut i: usize = first;
        while i < kept.len() && records.len() < limit
            invariant
                first <= i <= kept@.len(),
                end == kept@.len(),
                wanted == counted(kept@).skip(first as int),
                records@.len() == i - first,
                records@.len() <= limit,
                stored_view(records@) =~= wanted.take(i - first),
            decreases kept@.len() - i,
        {
            let ghost before = stored_view(records@);
            records.push(
                Stored {
                    bytes: copied_bytes(&kept[i]),
                    after: Position::from_token((i + 1) as u64),
                },
            );
            proof {
                assert(stored_view(records@) =~= before.push(wanted[i - first]));
            }
            i += 1;
        }
        proof {
            assert(stored_view(records@) =~= limited(wanted, limit as int));
        }
        Ok(Batch { records, torn: None })
    }

    fn cursor(&self, queue: &QueueName, consumer: &ConsumerName) -> (r: Result<
        Option<Position>,
        TransportError,
    >)
        ensures
            r is Ok,
    {
        match self.cursors.get(queue.as_str()) {
            None => Ok(None),
            Some(of_queue) => match of_queue.get(consumer.as_str()) {
                None => Ok(None),
                Some(at) => Ok(Some(Position::from_token(*at))),
            },
        }
    }

    fn commit(&mut self, queue: &QueueName, consumer: &ConsumerName, at: Position) -> (r: Result<
        (),
        TransportError,
    >)
        ensures
            r is Ok <==> at@ <= old(self).end(queue@),
            r is Ok ==> final(self).cursor_of(queue@, consumer@) == Some(at@ as int),
            r is Ok ==> final(self).generation(queue@) >= old(self).generation(queue@) && (old(
                self,
            ).generation(queue@) < u64::MAX ==> final(self).generation(queue@) == old(
                self,
            ).generation(queue@) + 1),
            r is Err ==> *final(self) == *old(self),
    {
        let kept = self.kept_of(queue.as_str());
        proof {
            assert(counted(kept@).len() == counted(self.kept(queue@)).len());
        }
        let end: usize = kept.len();
        if at.token() > end as u64 {
            return Err(
                TransportError::PastEnd {
                    queue: queue.clone(),
                    position: at,
                    end: Position::from_token(end as u64),
                },
            );
        }
        let token: u64 = at.token();
        let of_queue = self.with_cursor(queue.as_str(), consumer.as_str(), token);
        self.cursors.ordered();
        proof {
            assert forall|q: Seq<char>| #[trigger]
                lookup(inserted(self.cursors@, queue@, of_queue), q) == if q == queue@ {
                    Some(of_queue)
                } else {
                    lookup(self.cursors@, q)
                } by {
                lemma_lookup_inserted(self.cursors@, queue@, of_queue, q);
            }
        }
        self.cursors.insert(queue.as_str(), of_queue);
        self.bump(queue.as_str());
        proof {
            assert forall|q: Seq<char>, c: Seq<char>| (
            #[trigger] self.cursor_of(q, c)) is Some implies self.cursor_of(q, c)->0 <= self.kept(
                q,
            ).len() by {
                assert(self.kept(q) == old(self).kept(q));
                if !(q == queue@ && c == consumer@) {
                    assert(self.cursor_of(q, c) == old(self).cursor_of(q, c));
                } else {
                    assert(self.cursor_of(q, c) == Some(token as int));
                    assert(counted(kept@).len() == end);
                }
            }
        }
        Ok(())
    }

    fn fingerprint(&self, queue: &QueueName) -> (r: Result<Fingerprint, TransportError>)
        ensures
            r is Ok,
            r->Ok_0@ == seq![self.generation(queue@)],
    {
        let mut parts: Vec<u64> = Vec::new();
        parts.push(self.generation_of(queue.as_str()));
        proof {
            assert(parts@ =~= seq![self.generation(queue@)]);
        }
        Ok(Fingerprint::from_parts(parts))
    }

    fn document(&self, queue: &QueueName, name: &DocumentName) -> (r: Result<
        Option<Vec<u8>>,
        TransportError,
    >)
        ensures
            r is Ok,
    {
        match self.documents.get(name.as_str()) {
            None => Ok(None),
            Some(bytes) => Ok(Some(copied_bytes(bytes))),
        }
    }

    fn replace_document(&mut self, queue: &QueueName, name: &DocumentName, bytes: &Vec<u8>) -> (r:
        Result<(), TransportError>)
        ensures
            r is Ok,
    {
        let copy = copied_bytes(bytes);
        self.documents.ordered();
        proof {
            assert forall|n: Seq<char>| #[trigger]
                lookup(inserted(self.documents@, name@, copy), n) == if n == name@ {
                    Some(copy)
                } else {
                    lookup(self.documents@, n)
                } by {
                lemma_lookup_inserted(self.documents@, name@, copy, n);
            }
        }
        self.documents.insert(name.as_str(), copy);
        proof {
            assert forall|q: Seq<char>, c: Seq<char>| (
            #[trigger] self.cursor_of(q, c)) is Some implies self.cursor_of(q, c)->0 <= self.kept(
                q,
            ).len() by {
                assert(self.cursor_of(q, c) == old(self).cursor_of(q, c));
                assert(self.kept(q) == old(self).kept(q));
            }
        }
        Ok(())
    }
}

impl MemoryTransport {
    /// The cursors of `queue`, with `consumer`'s at `token`.
    fn with_cursor(&self, queue: &str, consumer: &str, token: u64) -> (r: Table<u64>)
        ensures
            forall|c: Seq<char>| #[trigger]
                lookup(r@, c) == if c == consumer@ {
                    Some(token)
                } else {
                    match lookup(self.cursors@, queue@) {
                        Some(of_queue) => lookup(of_queue@, c),
                        None => None,
                    }
                },
    {
        let mut out: Table<u64> = Table::new();
        match self.cursors.get(queue) {
            None => {},
            Some(of_queue) => {
                of_queue.ordered();
                let mut i: usize = 0;
                proof {
                    assert(of_queue@.take(0) =~= Seq::<(Seq<char>, u64)>::empty());
                }
                while i < of_queue.len()
                    invariant
                        i <= of_queue@.len(),
                        in_order(of_queue@),
                        forall|c: Seq<char>| #[trigger]
                            lookup(out@, c) == lookup(of_queue@.take(i as int), c),
                    decreases of_queue@.len() - i,
                {
                    let name = of_queue.name_at(i);
                    let at: u64 = *of_queue.value_at(i);
                    out.ordered();
                    let ghost before = out@;
                    out.insert(name, at);
                    proof {
                        assert forall|c: Seq<char>| #[trigger]
                            lookup(out@, c) == lookup(of_queue@.take(i + 1), c) by {
                            lemma_lookup_inserted(before, name@, at, c);
                            lemma_lookup_take(of_queue@, i as int, c);
                            assert(lookup(before, c) == lookup(of_queue@.take(i as int), c));
                        }
                    }
                    i += 1;
                }
                proof {
                    assert(of_queue@.take(i as int) =~= of_queue@);
                }
            },
        }
        out.ordered();
        let ghost before = out@;
        out.insert(consumer, token);
        proof {
            assert forall|c: Seq<char>| #[trigger]
                lookup(out@, c) == if c == consumer@ {
                    Some(token)
                } else {
                    lookup(before, c)
                } by {
                lemma_lookup_inserted(before, consumer@, token, c);
            }
        }
        out
    }
}

/// A queue's change token stands while nothing of the queue moved: what is done to
/// another queue, and any number of such steps, leave it as it was.
pub proof fn token_stands_while_nothing_moves<T: Transport>(
    before: T,
    between: T,
    after: T,
    first: Seq<char>,
    second: Seq<char>,
    queue: Seq<char>,
)
    requires
        keeps_others(before, between, first),
        keeps_others(between, after, second),
        queue != first,
        queue != second,
    ensures
        after.token(queue) == before.token(queue),
{
}

} // verus!
