//! The plugin protocol: a transport served by another process, one line for each
//! request and each reply.

use crate::bytes::{lossy, lossy_text, text_bytes, utf8_text};
use crate::correlation::Answer;
use crate::filter::text_view;
use crate::framing::{after_position, is_record};
use crate::kinds::TransportConfig;
use crate::local::Append;
use crate::names::{Changed, ConsumerName, DocumentName, Fingerprint, Position, QueueName};
use crate::policy::queue_view;
use crate::queue_reads::position_of;
use crate::schema::Read;
use crate::text::{cat2, cat3, cat4, cat5, cat7, decimal, decimal_of, same_text};
use crate::transport::{
    Batch, Stored, TornRecord, Transport, TransportError, error_words, keeps_cursors,
    keeps_others, limited, record_fault, start_of, stored_view, torn_after,
};
use vstd::prelude::*;
use vstd::utf8::{encode_utf8, encode_utf8_valid_utf8, valid_utf8};

verus! {

/// The protocol's name.
pub const PROTOCOL: &'static str = "onemessagebus-transport";

/// The protocol version spoken.
pub const PROTOCOL_VERSION: u32 = 1;

/// How many milliseconds one wait request holds a plugin's pipe at most.
pub const REMOTE_WAIT: u64 = 50;

/// The client's first line.
#[derive(Debug)]
pub struct PluginHello {
    /// The protocol's name.
    pub protocol: String,
    /// The version the client speaks.
    pub version: u32,
    /// The configuration of the transport to open.
    pub config: TransportConfig,
}

/// One request after the hello.
#[derive(Debug)]
pub enum PluginRequest {
    /// Append a record.
    Append {
        /// The queue.
        queue: QueueName,
        /// The record.
        record: String,
    },
    /// Read records.
    Read {
        /// The queue.
        queue: QueueName,
        /// Read after this position; from the start when absent.
        from: Option<Position>,
        /// At most this many records.
        limit: u64,
    },
    /// Where a consumer has read up to.
    Cursor {
        /// The queue.
        queue: QueueName,
        /// The consumer.
        consumer: ConsumerName,
    },
    /// Record where a consumer has read up to.
    Commit {
        /// The queue.
        queue: QueueName,
        /// The consumer.
        consumer: ConsumerName,
        /// Where it has read up to.
        at: Position,
    },
    /// Open a section over a queue.
    BeginExclusive {
        /// The queue.
        queue: QueueName,
    },
    /// End the section.
    EndExclusive {
        /// The queue.
        queue: QueueName,
        /// Whether its body failed.
        failed: bool,
    },
    /// A queue's change token.
    Fingerprint {
        /// The queue.
        queue: QueueName,
    },
    /// Wait for a queue to change.
    WaitForChange {
        /// The queue.
        queue: QueueName,
        /// The token to wait for it to move from.
        since: Fingerprint,
        /// How long to wait, in milliseconds.
        timeout_ms: u64,
    },
    /// What a document holds.
    Document {
        /// The queue.
        queue: QueueName,
        /// The document.
        name: DocumentName,
    },
    /// Replace what a document holds.
    ReplaceDocument {
        /// The queue.
        queue: QueueName,
        /// The document.
        name: DocumentName,
        /// Its new contents.
        bytes: String,
    },
}

/// One reply: what was asked for, or why not.
#[derive(Debug)]
pub enum PluginReply {
    /// The request was done.
    Answer(PluginAnswer),
    /// It was not.
    Error(PluginError),
}

/// What a request that was done answers.
#[derive(Debug)]
pub enum PluginAnswer {
    /// The answer to a hello.
    Hello {
        /// The protocol's name.
        protocol: String,
        /// The version the plugin speaks.
        version: u32,
    },
    /// Where an appended record landed.
    Position(Position),
    /// The records a read found.
    Batch {
        /// The whole records, oldest first.
        records: Vec<PluginStored>,
        /// A torn record after them.
        torn: Option<PluginTorn>,
    },
    /// A consumer's cursor.
    Cursor(Option<Position>),
    /// A change token.
    Fingerprint(Fingerprint),
    /// What a wait for a change found.
    Changed {
        /// Whether the queue moved.
        moved: bool,
        /// Its token now.
        fingerprint: Fingerprint,
    },
    /// A document's contents.
    Document(Option<String>),
    /// Done, with nothing to hand back.
    Done,
}

/// One record a read found.
#[derive(Debug)]
pub struct PluginStored {
    /// The record.
    pub record: String,
    /// The position after it.
    pub after: Position,
}

/// The torn record after those a read found.
#[derive(Debug)]
pub struct PluginTorn {
    /// Where it starts.
    pub at: Position,
    /// How many bytes of it there are.
    pub bytes: u64,
}

/// Why a request was not done.
#[derive(Debug)]
pub struct PluginError {
    /// Which refusal.
    pub kind: PluginErrorKind,
    /// What the plugin said.
    pub message: String,
    /// The queue, where a position was refused.
    pub queue: Option<QueueName>,
    /// The position asked for, where one was refused.
    pub position: Option<Position>,
    /// Where the queue ends, for a position past it.
    pub end: Option<Position>,
}

/// The refusals the protocol tells apart.
#[derive(Debug, Clone, Copy, PartialEq, Eq, Structural)]
pub enum PluginErrorKind {
    /// A position past the end.
    PastEnd,
    /// A position no record starts at.
    NotABoundary,
    /// Anything else the transport refused.
    Refused,
    /// A request the plugin could not read, or one out of its place.
    Protocol,
}

/// Whether a plugin's error tells a transport's failure.
pub open spec fn tells(error: PluginError, failure: TransportError) -> bool {
    &&& error.message@ == error_words(failure)
    &&& match failure {
        TransportError::PastEnd { queue, position, end } => error.kind == PluginErrorKind::PastEnd
            && queue_view(error.queue) == Some(queue@) && error.position == Some(position)
            && error.end == Some(end),
        TransportError::NotABoundary { queue, position } => error.kind
            == PluginErrorKind::NotABoundary && queue_view(error.queue) == Some(queue@)
            && error.position == Some(position) && error.end is None,
        _ => error.kind == PluginErrorKind::Refused && error.queue is None && error.position is None
            && error.end is None,
    }
}

/// Whether a transport's failure is what a plugin's error is read back as.
pub open spec fn told_as(error: PluginError, kind: Seq<char>, failure: TransportError) -> bool {
    if error.kind == PluginErrorKind::PastEnd && error.queue is Some && error.position is Some
        && error.end is Some {
        match failure {
            TransportError::PastEnd { queue, position, end } => Some(queue) == error.queue && Some(
                position,
            ) == error.position && Some(end) == error.end,
            _ => false,
        }
    } else if error.kind == PluginErrorKind::NotABoundary && error.queue is Some
        && error.position is Some {
        match failure {
            TransportError::NotABoundary { queue, position } => Some(queue) == error.queue && Some(
                position,
            ) == error.position,
            _ => false,
        }
    } else {
        match failure {
            TransportError::Backend { transport, detail } => transport@ == kind && detail@
                == error.message@,
            _ => false,
        }
    }
}

impl PluginError {
    /// The error that tells a transport's failure.
    pub fn of(failure: &TransportError) -> (r: Self)
        ensures
            tells(r, *failure),
    {
        let message = failure.message();
        match failure {
            TransportError::PastEnd { queue, position, end } => PluginError {
                kind: PluginErrorKind::PastEnd,
                message,
                queue: Some(queue.clone()),
                position: Some(*position),
                end: Some(*end),
            },
            TransportError::NotABoundary { queue, position } => PluginError {
                kind: PluginErrorKind::NotABoundary,
                message,
                queue: Some(queue.clone()),
                position: Some(*position),
                end: None,
            },
            _ => PluginError {
                kind: PluginErrorKind::Refused,
                message,
                queue: None,
                position: None,
                end: None,
            },
        }
    }

    /// The error of a request that could not be read, or was out of its place.
    pub fn protocol(message: &str) -> (r: Self)
        ensures
            r.kind == PluginErrorKind::Protocol,
            r.message@ == message@,
            r.queue is None,
            r.position is None,
            r.end is None,
    {
        PluginError {
            kind: PluginErrorKind::Protocol,
            message: message.to_owned(),
            queue: None,
            position: None,
            end: None,
        }
    }

    /// The transport's failure this error is read back as.
    pub fn into_transport_error(self, kind: &str) -> (r: TransportError)
        ensures
            told_as(self, kind@, r),
    {
        match (self.kind, self.queue, self.position, self.end) {
            (PluginErrorKind::PastEnd, Some(queue), Some(position), Some(end)) => {
                TransportError::PastEnd { queue, position, end }
            },
            (PluginErrorKind::NotABoundary, Some(queue), Some(position), _) => {
                TransportError::NotABoundary { queue, position }
            },
            _ => TransportError::Backend { transport: kind.to_owned(), detail: self.message },
        }
    }
}

/// A refused position crosses the protocol whole: what a client reads back names
/// the queue and the positions the transport named.
pub proof fn refused_positions_cross_whole(
    failure: TransportError,
    error: PluginError,
    kind: Seq<char>,
    read: TransportError,
)
    requires
        failure is PastEnd || failure is NotABoundary,
        tells(error, failure),
        told_as(error, kind, read),
    ensures
        match failure {
            TransportError::PastEnd { queue, position, end } => match read {
                TransportError::PastEnd { queue: q, position: p, end: e } => q@ == queue@ && p
                    == position && e == end,
                _ => false,
            },
            TransportError::NotABoundary { queue, position } => match read {
                TransportError::NotABoundary { queue: q, position: p } => q@ == queue@ && p
                    == position,
                _ => false,
            },
            _ => true,
        },
{
}

// ---------------------------------------------------------------------------
// The hello.
// ---------------------------------------------------------------------------

/// What a plugin says of a client that speaks another protocol or version.
pub open spec fn hello_fault(protocol: Seq<char>, version: u32) -> Option<Seq<char>> {
    if protocol == PROTOCOL@ && version == PROTOCOL_VERSION {
        None
    } else {
        Some(
            "the client speaks "@ + protocol + " version "@ + decimal(version as nat)
                + ", and this plugin speaks "@ + PROTOCOL@ + " version "@ + decimal(
                PROTOCOL_VERSION as nat,
            ),
        )
    }
}

/// Refuses a hello at another protocol or version.
pub fn check_hello(protocol: &str, version: u32) -> (r: Result<(), String>)
    ensures
        match r {
            Ok(()) => hello_fault(protocol@, version) is None,
            Err(why) => hello_fault(protocol@, version) == Some(why@),
        },
{
    if same_text(protocol, PROTOCOL) && version == PROTOCOL_VERSION {
        return Ok(());
    }
    let theirs = decimal_of(version as u64);
    let ours = decimal_of(PROTOCOL_VERSION as u64);
    let first = cat5(
        "the client speaks ",
        protocol,
        " version ",
        theirs.as_str(),
        ", and this plugin speaks ",
    );
    Err(cat4(first.as_str(), PROTOCOL, " version ", ours.as_str()))
}

/// What a client says of a plugin that answers its hello at another protocol or
/// version.
pub open spec fn greeting_fault(path: Seq<char>, protocol: Seq<char>, version: u32) -> Option<
    Seq<char>,
> {
    if protocol == PROTOCOL@ && version == PROTOCOL_VERSION {
        None
    } else {
        Some(
            "the plugin "@ + path + " speaks "@ + protocol + " version "@ + decimal(version as nat)
                + ", and this build speaks "@ + PROTOCOL@ + " version "@ + decimal(
                PROTOCOL_VERSION as nat,
            ),
        )
    }
}

/// Refuses an answered hello at another protocol or version.
pub fn check_greeting(path: &str, protocol: &str, version: u32) -> (r: Result<(), String>)
    ensures
        match r {
            Ok(()) => greeting_fault(path@, protocol@, version) is None,
            Err(why) => greeting_fault(path@, protocol@, version) == Some(why@),
        },
{
    if same_text(protocol, PROTOCOL) && version == PROTOCOL_VERSION {
        return Ok(());
    }
    let theirs = decimal_of(version as u64);
    let ours = decimal_of(PROTOCOL_VERSION as u64);
    let first = cat7(
        "the plugin ",
        path,
        " speaks ",
        protocol,
        " version ",
        theirs.as_str(),
        ", and this build speaks ",
    );
    Err(cat4(first.as_str(), PROTOCOL, " version ", ours.as_str()))
}

// ---------------------------------------------------------------------------
// Answering requests.
// ---------------------------------------------------------------------------

/// What a request is, to the section it arrives in.
#[derive(Debug)]
pub enum SectionStep {
    /// It is answered by itself.
    Answer,
    /// It opens a section.
    Begin,
    /// It ends the section, which did what it was to.
    Ended,
    /// It ends the section, whose body failed.
    Failed(TransportError),
    /// It is out of its place.
    Misplaced(PluginError),
}

/// What a request is, to the section it arrives in, if any.
pub fn section_step(section: Option<&QueueName>, request: &PluginRequest) -> (r: SectionStep)
    ensures
        match *request {
            PluginRequest::EndExclusive { queue, failed } => if section is Some && section->0@
                == queue@ {
                if failed {
                    match r {
                        SectionStep::Failed(TransportError::Backend { transport, detail }) =>
                            transport@ == "plugin"@ && detail@ == "the client's section over "@
                            + queue@ + " failed"@,
                        _ => false,
                    }
                } else {
                    r is Ended
                }
            } else {
                match r {
                    SectionStep::Misplaced(error) => error.kind == PluginErrorKind::Protocol
                        && error.message@ == "end_exclusive for "@ + queue@
                        + ", which no open section holds"@,
                    _ => false,
                }
            },
            PluginRequest::BeginExclusive { .. } => r is Begin,
            _ => r is Answer,
        },
{
    match request {
        PluginRequest::EndExclusive { queue, failed } => {
            let held = match section {
                Some(section) => same_text(section.as_str(), queue.as_str()),
                None => false,
            };
            if held {
                if *failed {
                    SectionStep::Failed(
                        TransportError::Backend {
                            transport: "plugin".to_owned(),
                            detail: cat3("the client's section over ", queue.as_str(), " failed"),
                        },
                    )
                } else {
                    SectionStep::Ended
                }
            } else {
                let why = cat3("end_exclusive for ", queue.as_str(), ", which no open section holds");
                SectionStep::Misplaced(PluginError::protocol(why.as_str()))
            }
        },
        PluginRequest::BeginExclusive { .. } => SectionStep::Begin,
        _ => SectionStep::Answer,
    }
}

/// What the end of the input is, to the section it arrives in, if any.
pub fn input_ended(section: Option<&QueueName>) -> (r: Result<(), TransportError>)
    ensures
        match section {
            None => r is Ok,
            Some(queue) => match r {
                Err(TransportError::Backend { transport, detail }) => transport@ == "plugin"@
                    && detail@ == "the client went away inside its section over "@ + queue@,
                _ => false,
            },
        },
{
    match section {
        None => Ok(()),
        Some(queue) => Err(
            TransportError::Backend {
                transport: "plugin".to_owned(),
                detail: cat2("the client went away inside its section over ", queue.as_str()),
            },
        ),
    }
}

/// What records read as over the protocol, whose records are text.
pub open spec fn carried_records(records: Seq<PluginStored>) -> Seq<(Seq<char>, int)> {
    Seq::new(records.len(), |i: int| (records[i].record@, records[i].after@ as int))
}

/// Records as text.
pub open spec fn records_as_text(log: Seq<(Seq<u8>, int)>) -> Seq<(Seq<char>, int)> {
    Seq::new(log.len(), |i: int| (lossy(log[i].0), log[i].1))
}

/// Records as bytes.
pub open spec fn records_as_bytes(records: Seq<(Seq<char>, int)>) -> Seq<(Seq<u8>, int)> {
    Seq::new(records.len(), |i: int| (encode_utf8(records[i].0), records[i].1))
}

/// Whether a torn record is carried as `carried`.
pub open spec fn torn_carried(torn: Option<TornRecord>, carried: Option<PluginTorn>) -> bool {
    match torn {
        Some(torn) => carried is Some && carried->0.at == torn.at && carried->0.bytes == torn.bytes,
        None => carried is None,
    }
}

/// What a read found, as it is carried.
pub fn carried_batch(batch: &Batch) -> (r: PluginAnswer)
    ensures
        match r {
            PluginAnswer::Batch { records, torn } => carried_records(records@) == records_as_text(
                stored_view(batch.records@),
            ) && torn_carried(batch.torn, torn) && forall|i: int|
                0 <= i < records@.len() && valid_utf8(batch.records@[i].bytes@) ==> encode_utf8(
                    (#[trigger] records@[i]).record@,
                ) == batch.records@[i].bytes@,
            _ => false,
        },
{
    let ghost log = stored_view(batch.records@);
    let mut records: Vec<PluginStored> = Vec::new();
    let mut i: usize = 0;
    while i < batch.records.len()
        invariant
            i <= batch.records@.len(),
            log == stored_view(batch.records@),
            carried_records(records@) =~= records_as_text(log).take(i as int),
            records@.len() == i,
            forall|k: int|
                0 <= k < i && valid_utf8(batch.records@[k].bytes@) ==> encode_utf8(
                    (#[trigger] records@[k]).record@,
                ) == batch.records@[k].bytes@,
        decreases batch.records@.len() - i,
    {
        let ghost before = carried_records(records@);
        let stored = &batch.records[i];
        let one = PluginStored { record: lossy_text(&stored.bytes), after: stored.after };
        let ghost kept = (one.record@, one.after@ as int);
        records.push(one);
        proof {
            assert(carried_records(records@) =~= before.push(kept));
            assert(records_as_text(log)[i as int] == kept);
        }
        i += 1;
    }
    proof {
        assert(carried_records(records@) =~= records_as_text(log));
    }
    PluginAnswer::Batch {
        records,
        torn: match &batch.torn {
            Some(torn) => Some(PluginTorn { at: torn.at, bytes: torn.bytes }),
            None => None,
        },
    }
}

/// What a read found, from how it was carried.
pub fn read_batch(records: &Vec<PluginStored>, torn: &Option<PluginTorn>) -> (r: Batch)
    ensures
        stored_view(r.records@) == records_as_bytes(carried_records(records@)),
        torn_carried(r.torn, *torn),
{
    let ghost all = carried_records(records@);
    let mut out: Vec<Stored> = Vec::new();
    let mut i: usize = 0;
    while i < records.len()
        invariant
            i <= records@.len(),
            all == carried_records(records@),
            stored_view(out@) =~= records_as_bytes(all).take(i as int),
        decreases records@.len() - i,
    {
        let ghost before = stored_view(out@);
        let one = Stored { bytes: text_bytes(records[i].record.as_str()), after: records[i].after };
        let ghost kept = (one.bytes@, one.after@ as int);
        out.push(one);
        proof {
            assert(stored_view(out@) =~= before.push(kept));
            assert(records_as_bytes(all)[i as int] == kept);
        }
        i += 1;
    }
    proof {
        assert(stored_view(out@) =~= records_as_bytes(all));
    }
    Batch {
        records: out,
        torn: match torn {
            Some(torn) => Some(TornRecord { at: torn.at, bytes: torn.bytes }),
            None => None,
        },
    }
}

/// What a torn record is, as it is carried.
pub open spec fn torn_as_carried(torn: Option<PluginTorn>) -> Option<(int, int)> {
    match torn {
        Some(torn) => Some((torn.at@ as int, torn.bytes as int)),
        None => None,
    }
}

/// Whether `answer` is what a request that is a single exchange is answered with.
pub open spec fn answers_request<T: Transport>(
    request: PluginRequest,
    before: T,
    after: T,
    answer: Result<Option<PluginAnswer>, TransportError>,
) -> bool {
    match request {
        PluginRequest::Append { queue, record } => match answer {
            Ok(Some(PluginAnswer::Position(position))) => {
                &&& is_record(encode_utf8(record@))
                &&& after.log(queue@) == before.log(queue@).push(
                    (encode_utf8(record@), position@ as int),
                )
                &&& after.torn(queue@) is None
                &&& keeps_others(before, after, queue@)
                &&& keeps_cursors(before, after, queue@)
                &&& forall|q: Seq<char>| q != queue@ ==> #[trigger] after.log(q) == before.log(q)
                &&& forall|q: Seq<char>, n: Seq<char>| #[trigger]
                    after.document_of(q, n) == before.document_of(q, n)
            },
            Err(TransportError::NotARecord { queue: named, why }) => !is_record(
                encode_utf8(record@),
            ) && named@ == queue@ && why@ == record_fault(encode_utf8(record@)) && after == before,
            Err(_) => is_record(encode_utf8(record@)) && !before.reliable(),
            Ok(_) => false,
        },
        PluginRequest::Read { queue, from, limit } => after == before && match answer {
            Ok(Some(PluginAnswer::Batch { records, torn })) => {
                &&& before.boundary(queue@, start_of(from))
                &&& carried_records(records@) == records_as_text(
                    limited(
                        after_position(before.log(queue@), start_of(from)),
                        if limit > usize::MAX {
                            usize::MAX as int
                        } else {
                            limit as int
                        },
                    ),
                )
                &&& torn_as_carried(torn) == torn_after(
                    before.torn(queue@),
                    after_position(before.log(queue@), start_of(from)).len() as int,
                    if limit > usize::MAX {
                        usize::MAX as int
                    } else {
                        limit as int
                    },
                )
            },
            Ok(_) => false,
            Err(TransportError::PastEnd { queue: named, position, end }) => named@ == queue@
                && position@ == start_of(from) && end@ == before.end(queue@) && start_of(from) > before.end(queue@),
            Err(TransportError::NotABoundary { queue: named, position }) => named@ == queue@
                && position@ == start_of(from) && start_of(from) <= before.end(queue@) && !before.boundary(queue@, start_of(from)),
            Err(_) => !before.reliable(),
        },
        PluginRequest::Cursor { queue, consumer } => after == before && match answer {
            Ok(Some(PluginAnswer::Cursor(at))) => before.cursor_of(queue@, consumer@)
                == position_of(at),
            Ok(_) => false,
            Err(_) => !before.reliable(),
        },
        PluginRequest::Commit { queue, consumer, at } => match answer {
            Ok(Some(PluginAnswer::Done)) => {
                &&& before.boundary(queue@, at@ as int)
                &&& after.cursor_of(queue@, consumer@) is Some
                &&& after_position(
                    after.log(queue@),
                    after.cursor_of(queue@, consumer@)->0,
                ) == after_position(before.log(queue@), at@ as int)
                &&& after.torn(queue@) == before.torn(queue@)
                &&& keeps_others(before, after, queue@)
                &&& forall|q: Seq<char>| #[trigger] after.log(q) == before.log(q)
                &&& forall|q: Seq<char>, c: Seq<char>|
                    !(q == queue@ && c == consumer@) ==> #[trigger] after.cursor_of(q, c)
                        == before.cursor_of(q, c)
                &&& forall|q: Seq<char>, n: Seq<char>| #[trigger]
                    after.document_of(q, n) == before.document_of(q, n)
            },
            Ok(_) => false,
            Err(TransportError::PastEnd { queue: named, position, end }) => named@ == queue@
                && position@ == at@ && end@ == before.end(queue@) && at@ > before.end(queue@),
            Err(TransportError::NotABoundary { queue: named, position }) => named@ == queue@
                && position@ == at@ && at@ <= before.end(queue@) && !before.boundary(queue@, at@ as int),
            Err(_) => !before.reliable(),
        },
        PluginRequest::Fingerprint { queue } => after == before && match answer {
            Ok(Some(PluginAnswer::Fingerprint(fingerprint))) => fingerprint@ == before.token(
                queue@,
            ),
            Ok(_) => false,
            Err(_) => !before.reliable(),
        },
        PluginRequest::Document { queue, name } => after == before && match answer {
            Ok(Some(PluginAnswer::Document(text))) => match before.document_of(queue@, name@) {
                Some(bytes) => text_view(text) == Some(lossy(bytes)),
                None => text is None,
            },
            Ok(_) => false,
            Err(_) => !before.reliable(),
        },
        PluginRequest::ReplaceDocument { queue, name, bytes } => match answer {
            Ok(Some(PluginAnswer::Done)) => {
                &&& after.document_of(queue@, name@) == Some(encode_utf8(bytes@))
                &&& forall|q: Seq<char>, n: Seq<char>|
                    n != name@ ==> #[trigger] after.document_of(q, n) == before.document_of(q, n)
                &&& forall|q: Seq<char>| #[trigger] after.log(q) == before.log(q)
                &&& forall|q: Seq<char>| #[trigger] after.token(q) == before.token(q)
                &&& forall|q: Seq<char>, c: Seq<char>| #[trigger]
                    after.cursor_of(q, c) == before.cursor_of(q, c)
            },
            Ok(_) => false,
            Err(_) => !before.reliable(),
        },
        PluginRequest::WaitForChange { .. } => after == before && match answer {
            Ok(None) => true,
            _ => false,
        },
        PluginRequest::BeginExclusive { .. } | PluginRequest::EndExclusive { .. } => after == before
            && match answer {
            Err(TransportError::Backend { transport, detail }) => transport@ == "plugin"@ && detail@
                == "a section request is not a single exchange"@,
            _ => false,
        },
    }
}

/// Answers one request that is a single exchange. A wait is the caller's to make,
/// and is answered with what it came to.
pub fn answer<T: Transport>(transport: &mut T, request: &PluginRequest) -> (r: Result<
    Option<PluginAnswer>,
    TransportError,
>)
    requires
        old(transport).sound(),
    ensures
        final(transport).sound(),
        final(transport).reliable() == old(transport).reliable(),
        answers_request(*request, *old(transport), *final(transport), r),
{
    match request {
        PluginRequest::Append { queue, record } => {
            let bytes = text_bytes(record.as_str());
            match transport.append(queue, &bytes) {
                Ok(position) => Ok(Some(PluginAnswer::Position(position))),
                Err(failure) => Err(failure),
            }
        },
        PluginRequest::Read { queue, from, limit } => {
            let bound: usize = if *limit > usize::MAX as u64 {
                usize::MAX
            } else {
                *limit as usize
            };
            match transport.read(queue, *from, bound) {
                Ok(batch) => Ok(Some(carried_batch(&batch))),
                Err(failure) => Err(failure),
            }
        },
        PluginRequest::Cursor { queue, consumer } => match transport.cursor(queue, consumer) {
            Ok(at) => Ok(Some(PluginAnswer::Cursor(at))),
            Err(failure) => Err(failure),
        },
        PluginRequest::Commit { queue, consumer, at } => match transport.commit(
            queue,
            consumer,
            *at,
        ) {
            Ok(()) => Ok(Some(PluginAnswer::Done)),
            Err(failure) => Err(failure),
        },
        PluginRequest::Fingerprint { queue } => match transport.fingerprint(queue) {
            Ok(fingerprint) => Ok(Some(PluginAnswer::Fingerprint(fingerprint))),
            Err(failure) => Err(failure),
        },
        PluginRequest::Document { queue, name } => match transport.document(queue, name) {
            Ok(Some(bytes)) => Ok(Some(PluginAnswer::Document(Some(lossy_text(&bytes))))),
            Ok(None) => Ok(Some(PluginAnswer::Document(None))),
            Err(failure) => Err(failure),
        },
        PluginRequest::ReplaceDocument { queue, name, bytes } => {
            let bytes = text_bytes(bytes.as_str());
            match transport.replace_document(queue, name, &bytes) {
                Ok(()) => Ok(Some(PluginAnswer::Done)),
                Err(failure) => Err(failure),
            }
        },
        PluginRequest::WaitForChange { .. } => Ok(None),
        PluginRequest::BeginExclusive { .. } | PluginRequest::EndExclusive { .. } => Err(
            TransportError::Backend {
                transport: "plugin".to_owned(),
                detail: "a section request is not a single exchange".to_owned(),
            },
        ),
    }
}

/// What a wait for a change is answered with.
pub fn changed_answer(changed: Changed) -> (r: PluginAnswer)
    ensures
        match changed {
            Changed::Moved(now) => r == (PluginAnswer::Changed { moved: true, fingerprint: now }),
            Changed::Unchanged(now) => r == (PluginAnswer::Changed {
                moved: false,
                fingerprint: now,
            }),
        },
{
    match changed {
        Changed::Moved(fingerprint) => PluginAnswer::Changed { moved: true, fingerprint },
        Changed::Unchanged(fingerprint) => PluginAnswer::Changed { moved: false, fingerprint },
    }
}

/// How many milliseconds one wait request asks for, of those left.
pub fn wait_slice(left: u64) -> (r: u64)
    ensures
        r == if left < REMOTE_WAIT {
            left
        } else {
            REMOTE_WAIT
        },
{
    if left < REMOTE_WAIT {
        left
    } else {
        REMOTE_WAIT
    }
}

/// Whether a wait goes on after a request that found no change, with `left`
/// milliseconds when it was made.
pub fn waits_on(moved: bool, left: u64) -> (r: bool)
    ensures
        r == (!moved && left > REMOTE_WAIT),
{
    !moved && left > REMOTE_WAIT
}

/// A record the protocol can carry: text, in UTF-8.
pub fn carried_record(queue: &QueueName, record: &Vec<u8>) -> (r: Result<String, TransportError>)
    ensures
        match r {
            Ok(text) => encode_utf8(text@) == record@,
            Err(TransportError::NotARecord { queue: named, why }) => named@ == queue@ && why@
                == "is not UTF-8, which the plugin protocol carries records as"@ && forall|
                text: Seq<char>,
            | #[trigger] encode_utf8(text) != record@,
            Err(_) => false,
        },
{
    proof {
        assert forall|text: Seq<char>| !valid_utf8(record@) implies #[trigger] encode_utf8(text)
            != record@ by {
            encode_utf8_valid_utf8(text);
        }
    }
    match utf8_text(record) {
        Some(text) => Ok(text),
        None => Err(
            TransportError::NotARecord {
                queue: queue.clone(),
                why: "is not UTF-8, which the plugin protocol carries records as".to_owned(),
            },
        ),
    }
}

/// A document the protocol can carry: text, in UTF-8.
pub fn carried_document(kind: &str, name: &DocumentName, bytes: &Vec<u8>) -> (r: Result<
    String,
    TransportError,
>)
    ensures
        match r {
            Ok(text) => encode_utf8(text@) == bytes@,
            Err(TransportError::Backend { transport, detail }) => transport@ == kind@ && detail@
                == "document "@ + name@
                + " is not UTF-8, which the plugin protocol carries documents as"@ && forall|
                text: Seq<char>,
            | #[trigger] encode_utf8(text) != bytes@,
            Err(_) => false,
        },
{
    proof {
        assert forall|text: Seq<char>| !valid_utf8(bytes@) implies #[trigger] encode_utf8(text)
            != bytes@ by {
            encode_utf8_valid_utf8(text);
        }
    }
    match utf8_text(bytes) {
        Some(text) => Ok(text),
        None => Err(
            TransportError::Backend {
                transport: kind.to_owned(),
                detail: cat3(
                    "document ",
                    name.as_str(),
                    " is not UTF-8, which the plugin protocol carries documents as",
                ),
            },
        ),
    }
}

/// What a section comes to, given what its body came to and what ending it was
/// answered: the body's failure first.
pub fn section_outcome(
    body: Result<(), TransportError>,
    ended: Result<(), TransportError>,
) -> (r: Result<(), TransportError>)
    ensures
        match body {
            Err(failure) => r == Err::<(), TransportError>(failure),
            Ok(()) => r == ended,
        },
{
    match body {
        Err(failure) => Err(failure),
        Ok(()) => ended,
    }
}

} // verus!
