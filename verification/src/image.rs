//! A directory of queues as it was read: the transport over its files' bytes, and
//! what an operation on them leaves to be written.

use crate::framing::{
    NEWLINE, append_then_read, copied_bytes, heal_keeps_records, is_boundary, is_record,
    lemma_records_after, lemma_records_bounds, lemma_torn_after, records_from, torn_start,
};
use crate::json::{Json, parsed_json, whole};
use crate::local::{
    Append, LocalTransport, commit_then_cursor, count_before, count_offset, lemma_count_before,
};
use crate::names::{ConsumerName, DocumentName, Fingerprint, Position, QueueName};
use crate::table::{Table, inserted, lemma_lookup_inserted, lemma_lookup_removed, lookup, removed};
use crate::text::{same_text, trim, trimmed};
use crate::transport::{Batch, Transport, TransportError, check_record, start_of};
use vstd::prelude::*;

verus! {

/// One write an operation on a directory of queues leaves.
#[derive(Debug)]
pub enum Change {
    /// A record is appended to a queue's file.
    Appended {
        /// The queue.
        queue: QueueName,
        /// How its file is cut and extended.
        append: Append,
    },
    /// A consumer's cursor file is replaced.
    Committed {
        /// The queue.
        queue: QueueName,
        /// The consumer.
        consumer: ConsumerName,
        /// How many records it has read.
        count: u64,
    },
    /// A document is replaced.
    Replaced {
        /// The document.
        name: DocumentName,
        /// What it holds.
        bytes: Vec<u8>,
    },
}

/// The files of a directory of queues, held in memory: each queue's lines, each
/// consumer's count of the records it has read, and the documents beside them.
#[derive(Debug)]
pub struct LocalImage {
    records: Table<Vec<u8>>,
    cursors: Table<Table<u64>>,
    documents: Table<Vec<u8>>,
    changes: Vec<Change>,
}

/// The count a cursor file's text is.
pub open spec fn count_said(text: Seq<char>) -> Option<u64> {
    match parsed_json(trimmed(text)) {
        Ok(value) => whole(value),
        Err(_) => None,
    }
}

/// How many of `changes` are a queue's own: records appended to it, cursors of it
/// moved.
pub open spec fn changes_of(changes: Seq<Change>, queue: Seq<char>) -> nat
    decreases changes.len(),
{
    if changes.len() == 0 {
        0
    } else {
        changes_of(changes.drop_last(), queue) + match changes.last() {
            Change::Appended { queue: named, append: _ } => if named@ == queue {
                1nat
            } else {
                0nat
            },
            Change::Committed { queue: named, consumer: _, count: _ } => if named@ == queue {
                1nat
            } else {
                0nat
            },
            Change::Replaced { .. } => 0nat,
        }
    }
}

proof fn lemma_changes_of(changes: Seq<Change>, queue: Seq<char>)
    ensures
        changes_of(changes, queue) <= changes.len(),
    decreases changes.len(),
{
    if changes.len() > 0 {
        lemma_changes_of(changes.drop_last(), queue);
    }
}

/// An image that holds the records and counts of another says the same of both.
proof fn lemma_same_counts(image: LocalImage, other: LocalImage)
    requires
        image.records == other.records,
        image.cursors == other.cursors,
    ensures
        forall|q: Seq<char>| #[trigger] image.held(q) == other.held(q),
        forall|q: Seq<char>, c: Seq<char>| #[trigger]
            image.counted_to(q, c) == other.counted_to(q, c),
{
    assert forall|q: Seq<char>| #[trigger] image.held(q) == other.held(q) by {}
    assert forall|q: Seq<char>, c: Seq<char>| #[trigger]
        image.counted_to(q, c) == other.counted_to(q, c) by {}
}

/// Where the files hold what they held, the queues end where they did.
proof fn lemma_kept(image: LocalImage, before: LocalImage)
    requires
        forall|q: Seq<char>| #[trigger] image.held(q) == before.held(q),
    ensures
        forall|q: Seq<char>| #[trigger] image.end(q) == before.end(q),
        forall|q: Seq<char>| #[trigger] image.torn(q) == before.torn(q),
        forall|q: Seq<char>, at: int| #[trigger] image.boundary(q, at) == before.boundary(q, at),
{
    assert forall|q: Seq<char>| #[trigger] image.end(q) == before.end(q) by {
        assert(image.held(q) == before.held(q));
    }
    assert forall|q: Seq<char>| #[trigger] image.torn(q) == before.torn(q) by {
        assert(image.held(q) == before.held(q));
    }
    assert forall|q: Seq<char>, at: int| #[trigger]
        image.boundary(q, at) == before.boundary(q, at) by {
        assert(image.held(q) == before.held(q));
    }
}

/// There are no more records than bytes.
proof fn lemma_fewer_records(bytes: Seq<u8>, upto: int)
    requires
        0 <= upto <= records_from(bytes, 0).len(),
    ensures
        upto > 0 ==> upto <= records_from(bytes, 0)[upto - 1].1,
    decreases upto,
{
    lemma_records_bounds(bytes, 0);
    if upto > 1 {
        lemma_fewer_records(bytes, upto - 1);
        let log = records_from(bytes, 0);
        assert(log[upto - 2].1 < log[upto - 1].1);
    }
}

/// The number of records of a file is one a machine counts to.
proof fn lemma_record_count(bytes: Seq<u8>)
    ensures
        records_from(bytes, 0).len() <= bytes.len(),
{
    let log = records_from(bytes, 0);
    lemma_records_bounds(bytes, 0);
    lemma_fewer_records(bytes, log.len() as int);
}

impl LocalImage {
    /// The bytes of a queue's file: none where there is no file.
    pub closed spec fn held(&self, queue: Seq<char>) -> Seq<u8> {
        match lookup(self.records@, queue) {
            Some(bytes) => bytes@,
            None => Seq::empty(),
        }
    }

    /// How many records a consumer has read, where its cursor says so.
    pub closed spec fn counted_to(&self, queue: Seq<char>, consumer: Seq<char>) -> Option<u64> {
        match lookup(self.cursors@, queue) {
            Some(of_queue) => lookup(of_queue@, consumer),
            None => None,
        }
    }

    /// What is to be written, in order.
    pub closed spec fn changed(&self) -> Seq<Change> {
        self.changes@
    }

    /// An empty directory.
    pub fn new() -> (r: Self)
        ensures
            r.sound(),
            forall|q: Seq<char>| #[trigger] r.held(q) == Seq::<u8>::empty(),
            forall|q: Seq<char>, c: Seq<char>| #[trigger] r.counted_to(q, c) is None,
            forall|q: Seq<char>, n: Seq<char>| #[trigger] r.document_of(q, n) is None,
            r.changed() == Seq::<Change>::empty(),
    {
        LocalImage {
            records: Table::new(),
            cursors: Table::new(),
            documents: Table::new(),
            changes: Vec::new(),
        }
    }

    /// What is to be written, in order.
    pub fn changes(&self) -> (r: &Vec<Change>)
        ensures
            r@ == self.changed(),
    {
        &self.changes
    }

    /// The bytes of a queue's file, copied.
    fn bytes_of(&self, queue: &str) -> (r: Vec<u8>)
        ensures
            r@ == self.held(queue@),
    {
        match self.records.get(queue) {
            Some(bytes) => copied_bytes(bytes),
            None => Vec::new(),
        }
    }

    /// How many of the changes are a queue's own.
    fn own_changes(&self, queue: &str) -> (r: u64)
        ensures
            r == changes_of(self.changed(), queue@),
    {
        let mut count: u64 = 0;
        let mut i: usize = 0;
        proof {
            assert(self.changes@.take(0) =~= Seq::<Change>::empty());
        }
        while i < self.changes.len()
            invariant
                i <= self.changes@.len(),
                count <= i,
                count == changes_of(self.changes@.take(i as int), queue@),
            decreases self.changes@.len() - i,
        {
            let own = match &self.changes[i] {
                Change::Appended { queue: named, append: _ } => same_text(named.as_str(), queue),
                Change::Committed { queue: named, consumer: _, count: _ } => same_text(
                    named.as_str(),
                    queue,
                ),
                Change::Replaced { .. } => false,
            };
            proof {
                let more = self.changes@.take(i + 1);
                assert(more.drop_last() =~= self.changes@.take(i as int));
                assert(more.last() == self.changes@[i as int]);
            }
            if own {
                count += 1;
            }
            i += 1;
        }
        proof {
            assert(self.changes@.take(i as int) =~= self.changes@);
        }
        count
    }

    /// Puts `bytes` as a queue's file.
    fn put_bytes(&mut self, queue: &str, bytes: Vec<u8>)
        ensures
            final(self).cursors == old(self).cursors,
            final(self).documents == old(self).documents,
            final(self).changes == old(self).changes,
            final(self).held(queue@) == bytes@,
            forall|q: Seq<char>| q != queue@ ==> #[trigger] final(self).held(q) == old(self).held(q),
    {
        self.records.ordered();
        proof {
            assert forall|q: Seq<char>| #[trigger]
                lookup(inserted(self.records@, queue@, bytes), q) == if q == queue@ {
                    Some(bytes)
                } else {
                    lookup(self.records@, q)
                } by {
                lemma_lookup_inserted(self.records@, queue@, bytes, q);
            }
        }
        self.records.insert(queue, bytes);
    }

    /// Puts how many records a consumer has read.
    fn put_count(&mut self, queue: &str, consumer: &str, count: u64)
        ensures
            final(self).records == old(self).records,
            final(self).documents == old(self).documents,
            final(self).changes == old(self).changes,
            final(self).counted_to(queue@, consumer@) == Some(count),
            forall|q: Seq<char>, c: Seq<char>|
                !(q == queue@ && c == consumer@) ==> #[trigger] final(self).counted_to(q, c) == old(
                    self,
                ).counted_to(q, c),
    {
        self.cursors.ordered();
        let ghost before = self.cursors@;
        let mut of_queue = match self.cursors.remove(queue) {
            Some(of_queue) => of_queue,
            None => Table::new(),
        };
        of_queue.ordered();
        let ghost counts = of_queue@;
        of_queue.insert(consumer, count);
        self.cursors.ordered();
        let ghost without = self.cursors@;
        proof {
            assert forall|q: Seq<char>| #[trigger]
                lookup(inserted(without, queue@, of_queue), q) == if q == queue@ {
                    Some(of_queue)
                } else {
                    lookup(before, q)
                } by {
                lemma_lookup_inserted(without, queue@, of_queue, q);
                lemma_lookup_removed(before, queue@, q);
            }
            assert forall|c: Seq<char>| #[trigger]
                lookup(of_queue@, c) == if c == consumer@ {
                    Some(count)
                } else {
                    lookup(counts, c)
                } by {
                lemma_lookup_inserted(counts, consumer@, count, c);
            }
        }
        self.cursors.insert(queue, of_queue);
    }

    /// Takes `bytes` as what a queue's file holds, and nothing yet as what its
    /// consumers have read.
    pub fn load_records(&mut self, queue: &QueueName, bytes: Vec<u8>)
        requires
            old(self).sound(),
        ensures
            final(self).sound(),
            final(self).held(queue@) == bytes@,
            forall|q: Seq<char>| q != queue@ ==> #[trigger] final(self).held(q) == old(self).held(q),
            forall|q: Seq<char>, c: Seq<char>| #[trigger]
                final(self).counted_to(q, c) == if q == queue@ {
                    None
                } else {
                    old(self).counted_to(q, c)
                },
            forall|q: Seq<char>, n: Seq<char>| #[trigger]
                final(self).document_of(q, n) == old(self).document_of(q, n),
            final(self).changed() == old(self).changed(),
    {
        self.cursors.ordered();
        let ghost before = self.cursors@;
        let _ = self.cursors.remove(queue.as_str());
        proof {
            assert forall|q: Seq<char>| #[trigger]
                lookup(removed(before, queue@), q) == if q == queue@ {
                    None
                } else {
                    lookup(before, q)
                } by {
                lemma_lookup_removed(before, queue@, q);
            }
        }
        let ghost without = *self;
        proof {
            assert forall|q: Seq<char>, c: Seq<char>| #[trigger]
                without.counted_to(q, c) == if q == queue@ {
                    None
                } else {
                    old(self).counted_to(q, c)
                } by {}
        }
        self.put_bytes(queue.as_str(), bytes);
        proof {
            assert forall|q: Seq<char>, c: Seq<char>| #[trigger]
                self.counted_to(q, c) == without.counted_to(q, c) by {}
        }
    }

    /// Takes `text` as what a consumer's cursor file holds. Text that is no count is
    /// the cursor of a consumer that has read nothing.
    pub fn load_cursor(&mut self, queue: &QueueName, consumer: &ConsumerName, text: &str)
        requires
            old(self).sound(),
        ensures
            final(self).sound(),
            match count_said(text@) {
                Some(count) => {
                    &&& final(self).counted_to(queue@, consumer@) == Some(count)
                    &&& final(self).cursor_of(queue@, consumer@) == Some(
                        count_offset(old(self).log(queue@), count as int),
                    )
                },
                None => *final(self) == *old(self),
            },
            forall|q: Seq<char>| #[trigger] final(self).held(q) == old(self).held(q),
            forall|q: Seq<char>, c: Seq<char>|
                !(q == queue@ && c == consumer@) ==> #[trigger] final(self).counted_to(q, c) == old(
                    self,
                ).counted_to(q, c),
            forall|q: Seq<char>, n: Seq<char>| #[trigger]
                final(self).document_of(q, n) == old(self).document_of(q, n),
            final(self).changed() == old(self).changed(),
    {
        let text = trim(text);
        let said: Option<u64> = match Json::parse(text.as_str()) {
            Ok(value) => value.as_u64(),
            Err(_) => None,
        };
        if let Some(count) = said {
            self.put_count(queue.as_str(), consumer.as_str(), count);
        }
    }

    /// Takes `bytes` as what a document holds.
    pub fn load_document(&mut self, name: &DocumentName, bytes: Vec<u8>)
        requires
            old(self).sound(),
        ensures
            final(self).sound(),
            forall|q: Seq<char>, n: Seq<char>| #[trigger]
                final(self).document_of(q, n) == if n == name@ {
                    Some(bytes@)
                } else {
                    old(self).document_of(q, n)
                },
            forall|q: Seq<char>| #[trigger] final(self).held(q) == old(self).held(q),
            forall|q: Seq<char>, c: Seq<char>| #[trigger]
                final(self).counted_to(q, c) == old(self).counted_to(q, c),
            final(self).changed() == old(self).changed(),
    {
        self.documents.ordered();
        proof {
            assert forall|n: Seq<char>| #[trigger]
                lookup(inserted(self.documents@, name@, bytes), n) == if n == name@ {
                    Some(bytes)
                } else {
                    lookup(self.documents@, n)
                } by {
                lemma_lookup_inserted(self.documents@, name@, bytes, n);
            }
        }
        let ghost before = *self;
        self.documents.insert(name.as_str(), bytes);
        proof {
            lemma_same_counts(*self, before);
        }
    }
}

impl Transport for LocalImage {
    open spec fn sound(&self) -> bool {
        true
    }

    open spec fn reliable(&self) -> bool {
        true
    }

    open spec fn torn(&self, queue: Seq<char>) -> Option<(int, int)> {
        let held = self.held(queue);
        let at = torn_start(held, 0);
        if at < held.len() {
            Some((at, held.len() - at))
        } else {
            None
        }
    }

    open spec fn token(&self, queue: Seq<char>) -> Seq<u64> {
        seq![self.held(queue).len() as u64, changes_of(self.changed(), queue) as u64]
    }

    open spec fn overruns(&self, queue: Seq<char>, consumer: Seq<char>) -> bool {
        match self.counted_to(queue, consumer) {
            Some(count) => count > self.log(queue).len(),
            None => false,
        }
    }

    open spec fn log(&self, queue: Seq<char>) -> Seq<(Seq<u8>, int)> {
        records_from(self.held(queue), 0)
    }

    open spec fn end(&self, queue: Seq<char>) -> int {
        self.held(queue).len() as int
    }

    open spec fn boundary(&self, queue: Seq<char>, at: int) -> bool {
        is_boundary(self.held(queue), at)
    }

    open spec fn cursor_of(&self, queue: Seq<char>, consumer: Seq<char>) -> Option<int> {
        match self.counted_to(queue, consumer) {
            Some(count) => Some(count_offset(self.log(queue), count as int)),
            None => None,
        }
    }

    closed spec fn document_of(&self, queue: Seq<char>, name: Seq<char>) -> Option<Seq<u8>> {
        match lookup(self.documents@, name) {
            Some(bytes) => Some(bytes@),
            None => None,
        }
    }

    proof fn positions_are_ordered(&self, queue: Seq<char>) {
        let bytes = self.held(queue);
        lemma_records_bounds(bytes, 0);
        lemma_record_count(bytes);
        assert forall|c: Seq<char>| (#[trigger] self.cursor_of(queue, c)) is Some implies {
            &&& 0 <= self.cursor_of(queue, c)->0 <= self.end(queue)
            &&& self.boundary(queue, self.cursor_of(queue, c)->0)
        } by {
            let log = records_from(bytes, 0);
            let count = self.counted_to(queue, c)->0 as int;
            if count > 0 && log.len() > 0 {
                let at = if count <= log.len() {
                    count - 1
                } else {
                    log.len() - 1
                };
                assert(is_boundary(bytes, log[at].1));
            }
        }
        if let Some(kept) = lookup(self.records@, queue) {
            assert(kept.len() as int == kept@.len());
        }
    }

    fn append(&mut self, queue: &QueueName, record: &Vec<u8>) -> (r: Result<
        Position,
        TransportError,
    >)
        ensures
            r is Ok <==> is_record(record@),
            match r {
                Ok(after) => {
                    &&& final(self).held(queue@) == old(self).held(queue@).take(
                        torn_start(old(self).held(queue@), 0),
                    ) + record@.push(NEWLINE)
                    &&& after@ == final(self).held(queue@).len()
                    &&& forall|q: Seq<char>|
                        q != queue@ ==> #[trigger] final(self).held(q) == old(self).held(q)
                    &&& final(self).changed().len() == old(self).changed().len() + 1
                    &&& final(self).changed().drop_last() == old(self).changed()
                    &&& match final(self).changed().last() {
                        Change::Appended { queue: named, append } => {
                            &&& named@ == queue@
                            &&& append.boundary == torn_start(old(self).held(queue@), 0)
                            &&& append.boundary + append.lost == old(self).held(queue@).len()
                            &&& append.line@ == record@.push(NEWLINE)
                            &&& append.after == after
                        },
                        _ => false,
                    }
                },
                Err(_) => *final(self) == *old(self),
            },
    {
        if let Err(e) = check_record(queue, record) {
            return Err(e);
        }
        let mut bytes = self.bytes_of(queue.as_str());
        let ghost held = bytes@;
        proof {
            lemma_records_bounds(held, 0);
            heal_keeps_records(held, 0);
        }
        let len: usize = bytes.len();
        let boundary: usize = LocalTransport::heal(&bytes);
        bytes.truncate(boundary);
        let mut line = copied_bytes(record);
        line.push(NEWLINE);
        let ghost kept = held.take(boundary as int);
        let mut i: usize = 0;
        proof {
            append_then_read(kept, record@);
            assert(kept + line@.take(0) =~= kept);
        }
        while i < line.len()
            invariant
                i <= line@.len(),
                bytes@ =~= kept + line@.take(i as int),
            decreases line@.len() - i,
        {
            proof {
                assert(line@.take(i + 1) =~= line@.take(i as int).push(line@[i as int]));
            }
            bytes.push(line[i]);
            i += 1;
        }
        proof {
            assert(line@.take(i as int) =~= line@);
            assert(bytes@ =~= kept + line@);
        }
        let grown: usize = bytes.len();
        let append = Append {
            boundary,
            lost: len - boundary,
            line,
            after: Position::from_token(grown as u64),
        };
        let after = append.after;
        let ghost before = *self;
        self.put_bytes(queue.as_str(), bytes);
        let ghost put = *self;
        self.changes.push(Change::Appended { queue: queue.clone(), append });
        proof {
            assert(self.changes@.drop_last() =~= before.changes@);
            let log = records_from(held, 0);
            let longer = records_from(put.held(queue@), 0);
            assert forall|q: Seq<char>, c: Seq<char>| #[trigger]
                put.counted_to(q, c) == before.counted_to(q, c) by {}
            lemma_same_counts(*self, put);
            assert forall|q: Seq<char>| q != queue@ implies #[trigger] self.held(q) == before.held(
                q,
            ) by {
                assert(self.held(q) == put.held(q));
            }
            assert(self.held(queue@) == put.held(queue@));
            assert forall|q: Seq<char>, c: Seq<char>| #[trigger]
                self.counted_to(q, c) == before.counted_to(q, c) by {
                assert(self.counted_to(q, c) == put.counted_to(q, c));
            }
            assert forall|q: Seq<char>| q != queue@ implies #[trigger] self.log(q) == before.log(
                q,
            ) by {
                assert(self.held(q) == before.held(q));
            }
            assert(longer == log.push((record@, after@ as int)));
            assert forall|q: Seq<char>, c: Seq<char>|
                !(q == queue@ && before.overruns(q, c)) implies #[trigger] self.cursor_of(q, c)
                == before.cursor_of(q, c) by {
                assert(self.counted_to(q, c) == before.counted_to(q, c));
                if self.counted_to(q, c) is Some && q == queue@ {
                    let count = before.counted_to(q, c)->0 as int;
                    assert(count <= log.len());
                    if count > 0 {
                        assert(longer[count - 1] == log[count - 1]);
                    }
                } else if q != queue@ {
                    assert(self.log(q) == before.log(q));
                }
            }
            assert forall|q: Seq<char>, c: Seq<char>| #[trigger]
                self.overruns(q, c) implies before.overruns(q, c) by {
                assert(self.counted_to(q, c) == before.counted_to(q, c));
                if q != queue@ {
                    assert(self.log(q) == before.log(q));
                }
            }
            assert forall|c: Seq<char>| before.overruns(queue@, c) implies #[trigger] self.cursor_of(
                queue@,
                c,
            ) == Some(after@ as int) by {
                assert(self.counted_to(queue@, c) == before.counted_to(queue@, c));
                let count = before.counted_to(queue@, c)->0 as int;
                assert(longer[longer.len() - 1] == (record@, after@ as int));
            }
            assert forall|q: Seq<char>| q != queue@ implies #[trigger] self.token(q)
                == before.token(q) by {
                assert(self.held(q) == before.held(q));
                assert(changes_of(self.changes@, q) == changes_of(before.changes@, q));
            }
            assert forall|q: Seq<char>| q != queue@ implies #[trigger] self.end(q) == before.end(
                q,
            ) by {
                assert(self.held(q) == before.held(q));
            }
            assert forall|q: Seq<char>| q != queue@ implies #[trigger] self.torn(q) == before.torn(
                q,
            ) by {
                assert(self.held(q) == before.held(q));
            }
            assert forall|q: Seq<char>, at: int|
                q != queue@ implies #[trigger] self.boundary(q, at) == before.boundary(q, at) by {
                assert(self.held(q) == before.held(q));
            }
        }
        Ok(after)
    }

    fn read(&self, queue: &QueueName, from: Option<Position>, limit: usize) -> (r: Result<
        Batch,
        TransportError,
    >)
        ensures
            r is Ok <==> start_of(from) <= self.end(queue@) && self.boundary(
                queue@,
                start_of(from),
            ),
    {
        let bytes = self.bytes_of(queue.as_str());
        proof {
            if start_of(from) <= bytes@.len() && is_boundary(bytes@, start_of(from)) {
                lemma_torn_after(bytes@, 0, start_of(from));
                lemma_records_after(bytes@, 0, start_of(from));
                lemma_records_bounds(bytes@, 0);
            }
        }
        LocalTransport::read_in(queue, &bytes, from, limit)
    }

    fn cursor(&self, queue: &QueueName, consumer: &ConsumerName) -> (r: Result<
        Option<Position>,
        TransportError,
    >)
        ensures
            r is Ok,
    {
        match self.cursors.get(queue.as_str()) {
            None => Ok(None),
            Some(of_queue) => match of_queue.get(consumer.as_str()) {
                None => Ok(None),
                Some(count) => {
                    let bytes = self.bytes_of(queue.as_str());
                    Ok(Some(LocalTransport::cursor_offset(&bytes, *count)))
                },
            },
        }
    }

    fn commit(&mut self, queue: &QueueName, consumer: &ConsumerName, at: Position) -> (r: Result<
        (),
        TransportError,
    >)
        ensures
            r is Ok <==> at@ <= old(self).end(queue@) && old(self).boundary(queue@, at@ as int),
            match r {
                Ok(()) => {
                    &&& final(self).counted_to(queue@, consumer@) == Some(
                        count_before(old(self).log(queue@), at@ as int) as u64,
                    )
                    &&& forall|q: Seq<char>| #[trigger] final(self).held(q) == old(self).held(q)
                    &&& final(self).changed().len() == old(self).changed().len() + 1
                    &&& final(self).changed().drop_last() == old(self).changed()
                    &&& match final(self).changed().last() {
                        Change::Committed { queue: named, consumer: by, count } => named@ == queue@
                            && by@ == consumer@ && count == count_before(
                            old(self).log(queue@),
                            at@ as int,
                        ),
                        _ => false,
                    }
                },
                Err(_) => *final(self) == *old(self),
            },
    {
        let bytes = self.bytes_of(queue.as_str());
        let count: u64 = match LocalTransport::commit_count(queue, &bytes, at) {
            Ok(count) => count,
            Err(e) => return Err(e),
        };
        let ghost before = *self;
        proof {
            lemma_records_bounds(bytes@, 0);
            lemma_count_before(records_from(bytes@, 0), at@ as int);
            commit_then_cursor(bytes@, at@ as int);
        }
        self.put_count(queue.as_str(), consumer.as_str(), count);
        let ghost put = *self;
        self.changes.push(
            Change::Committed { queue: queue.clone(), consumer: consumer.clone(), count },
        );
        proof {
            assert(self.changes@.drop_last() =~= before.changes@);
            assert forall|q: Seq<char>| #[trigger] put.held(q) == before.held(q) by {}
            lemma_same_counts(*self, put);
            assert forall|q: Seq<char>| #[trigger] self.held(q) == before.held(q) by {
                assert(self.held(q) == put.held(q));
            }
            assert forall|q: Seq<char>, c: Seq<char>|
                !(q == queue@ && c == consumer@) implies #[trigger] self.cursor_of(q, c)
                == before.cursor_of(q, c) by {
                assert(self.counted_to(q, c) == put.counted_to(q, c));
                assert(put.counted_to(q, c) == before.counted_to(q, c));
                assert(self.held(q) == before.held(q));
            }
            assert forall|q: Seq<char>, c: Seq<char>|
                !(q == queue@ && c == consumer@) implies #[trigger] self.overruns(q, c)
                == before.overruns(q, c) by {
                assert(self.counted_to(q, c) == put.counted_to(q, c));
                assert(put.counted_to(q, c) == before.counted_to(q, c));
                assert(self.held(q) == before.held(q));
            }
            assert(self.counted_to(queue@, consumer@) == put.counted_to(queue@, consumer@));
            lemma_kept(*self, before);
            assert forall|q: Seq<char>| q != queue@ implies #[trigger] self.token(q)
                == before.token(q) by {
                assert(self.held(q) == before.held(q));
                assert(changes_of(self.changes@, q) == changes_of(before.changes@, q));
            }
        }
        Ok(())
    }

    fn fingerprint(&self, queue: &QueueName) -> (r: Result<Fingerprint, TransportError>)
        ensures
            r is Ok,
    {
        let bytes = self.bytes_of(queue.as_str());
        let mut parts: Vec<u64> = Vec::new();
        parts.push(bytes.len() as u64);
        parts.push(self.own_changes(queue.as_str()));
        proof {
            assert(parts@ =~= self.token(queue@));
        }
        Ok(Fingerprint::from_parts(parts))
    }

    fn document(&self, queue: &QueueName, name: &DocumentName) -> (r: Result<
        Option<Vec<u8>>,
        TransportError,
    >)
        ensures
            r is Ok,
    {
        match self.documents.get(name.as_str()) {
            None => Ok(None),
            Some(bytes) => Ok(Some(copied_bytes(bytes))),
        }
    }

    fn replace_document(&mut self, queue: &QueueName, name: &DocumentName, bytes: &Vec<u8>) -> (r:
        Result<(), TransportError>)
        ensures
            r is Ok,
            forall|q: Seq<char>| #[trigger] final(self).held(q) == old(self).held(q),
            final(self).changed().len() == old(self).changed().len() + 1,
            final(self).changed().drop_last() == old(self).changed(),
            match final(self).changed().last() {
                Change::Replaced { name: named, bytes: put } => named@ == name@ && put@ == bytes@,
                _ => false,
            },
    {
        let ghost before = *self;
        self.load_document(name, copied_bytes(bytes));
        let ghost put = *self;
        self.changes.push(Change::Replaced { name: name.clone(), bytes: copied_bytes(bytes) });
        proof {
            assert(self.changes@.drop_last() =~= before.changes@);
            lemma_same_counts(*self, put);
            assert forall|q: Seq<char>| #[trigger] self.held(q) == before.held(q) by {
                assert(self.held(q) == put.held(q));
            }
            assert forall|q: Seq<char>, c: Seq<char>| #[trigger]
                self.cursor_of(q, c) == before.cursor_of(q, c) by {
                assert(self.counted_to(q, c) == put.counted_to(q, c));
            }
            assert forall|q: Seq<char>, n: Seq<char>|
                n != name@ implies #[trigger] self.document_of(q, n) == before.document_of(q, n) by {
                assert(self.document_of(q, n) == put.document_of(q, n));
            }
            assert(put.document_of(queue@, name@) == Some(bytes@));
            assert forall|q: Seq<char>, c: Seq<char>| #[trigger]
                self.overruns(q, c) == before.overruns(q, c) by {
                assert(self.counted_to(q, c) == put.counted_to(q, c));
                assert(self.held(q) == before.held(q));
            }
            lemma_kept(*self, before);
            assert forall|q: Seq<char>| #[trigger] self.token(q) == before.token(q) by {
                assert(self.held(q) == before.held(q));
                assert(changes_of(self.changes@, q) == changes_of(before.changes@, q));
            }
        }
        Ok(())
    }
}

} // verus!
