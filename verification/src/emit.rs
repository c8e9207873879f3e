//! Stamping, numbering, bounding and redacting envelopes.
//!
//! Every envelope is redacted, then bounded, then stamped. What the filter does
//! not take is stamped but never written, and takes no number: the sequence numbers
//! what the stream carries.

use crate::bounds::{bound_payload, bounded_payload};
use crate::envelope::{ArtifactRef, Envelope, Kind, Labels, Source, envelope_json, filled_with};
use crate::event_log::extended;
use crate::filter::{Filter, MatcherView, matchers_view, takes};
use crate::framing::{NEWLINE, lemma_line_end, line_end, torn_start};
use crate::json::{Json, JsonView, copied_fields, fields_view, text_of};
use crate::read::{
    Torn, lemma_line_end_extends, lines_are, read_lines, resuming_reads_on, whole_lines,
};
use crate::redact::{Redactor, redacted_fields};
use crate::text::{cat4, cat5, cat6, decimal, decimal_of};
use vstd::prelude::*;

verus! {

/// Why an envelope could not be recorded.
#[derive(Debug)]
pub enum EmitterError {
    /// The sink refused the write.
    Write {
        /// The stream the envelope belongs to.
        stream: String,
        /// The kind that was being recorded.
        kind: Kind,
        /// What the sink said.
        source: String,
    },
    /// The envelope would not serialize.
    Serialize {
        /// The stream the envelope belongs to.
        stream: String,
        /// The number the envelope was stamped with.
        seq: u64,
        /// The kind that was being recorded.
        kind: Kind,
        /// What the serializer said.
        source: String,
    },
    /// The shared stream file could not be locked, so the envelope could not be
    /// numbered.
    Lock {
        /// The file that would have ordered it.
        path: String,
        /// The kind that was being recorded.
        kind: Kind,
        /// What the lock said.
        source: String,
    },
}

/// A failure in words.
pub open spec fn emitter_error_words(error: EmitterError) -> Seq<char> {
    match error {
        EmitterError::Write { stream, kind, source } => "cannot record a "@ + kind.0@
            + " event on stream "@ + stream@ + ": "@ + source@,
        EmitterError::Serialize { stream, seq, kind, source } => "cannot record a "@ + kind.0@
            + " event on stream "@ + stream@ + " at seq "@ + decimal(seq as nat)
            + ": it does not serialize to JSON: "@ + source@,
        EmitterError::Lock { path, kind, source } => "cannot order a "@ + kind.0@ + " event in "@
            + path@ + ": "@ + source@,
    }
}

impl EmitterError {
    /// The failure in words.
    pub fn message(&self) -> (r: String)
        ensures
            r@ == emitter_error_words(*self),
    {
        match self {
            EmitterError::Write { stream, kind, source } => cat6(
                "cannot record a ",
                kind.as_str(),
                " event on stream ",
                stream.as_str(),
                ": ",
                source.as_str(),
            ),
            EmitterError::Serialize { stream, seq, kind, source } => {
                let at = decimal_of(*seq);
                let head = cat4(
                    "cannot record a ",
                    kind.as_str(),
                    " event on stream ",
                    stream.as_str(),
                );
                cat5(
                    head.as_str(),
                    " at seq ",
                    at.as_str(),
                    ": it does not serialize to JSON: ",
                    source.as_str(),
                )
            },
            EmitterError::Lock { path, kind, source } => cat6(
                "cannot order a ",
                kind.as_str(),
                " event in ",
                path.as_str(),
                ": ",
                source.as_str(),
            ),
        }
    }
}

/// An envelope that was stamped but could not be recorded, and why.
#[derive(Debug)]
pub struct Unrecorded {
    /// The envelope as it was stamped.
    pub envelope: Envelope,
    /// Why it was not written.
    pub error: EmitterError,
}

/// Where an emitter's numbers come from.
#[derive(Debug)]
pub enum Numbering {
    /// One writer: they are counted in memory.
    Single {
        /// The last number taken.
        taken: u64,
    },
    /// Several processes appending to one file: they are what the file holds.
    Shared {
        /// The file.
        path: String,
    },
}

/// Stamps and numbers one stream's envelopes.
#[derive(Debug)]
pub struct Emitter {
    stream: String,
    source: Source,
    version: u32,
    numbering: Numbering,
    labels: Labels,
    dimensions: Vec<(String, Json)>,
    filter: Filter,
    redactor: Redactor,
}

/// What an emitter stamps.
pub struct EmitterView {
    pub stream: Seq<char>,
    pub source: Seq<char>,
    pub version: u32,
    pub labels: Seq<(Seq<char>, JsonView)>,
    pub dimensions: Seq<(Seq<char>, JsonView)>,
    pub includes: Seq<MatcherView>,
    pub exclude: Seq<MatcherView>,
    pub secrets: Seq<Seq<char>>,
}

impl View for Emitter {
    type V = EmitterView;

    closed spec fn view(&self) -> EmitterView {
        EmitterView {
            stream: self.stream@,
            source: self.source.0@,
            version: self.version,
            labels: self.labels@,
            dimensions: fields_view(self.dimensions@),
            includes: matchers_view(self.filter.includes@),
            exclude: matchers_view(self.filter.exclude@),
            secrets: self.redactor@,
        }
    }
}

/// An envelope as it was stamped, and its line where it is to be written.
#[derive(Debug)]
pub struct Emitted {
    /// The envelope.
    pub envelope: Envelope,
    /// Its line, unless the filter does not take it.
    pub line: Option<String>,
}

/// Whether an emitter's filter takes an event.
pub open spec fn emits(
    emitter: EmitterView,
    kind: Seq<char>,
    dimensions: Seq<(Seq<char>, JsonView)>,
) -> bool {
    takes(
        emitter.includes,
        emitter.exclude,
        emitter.source,
        kind,
        extended(dimensions, emitter.labels),
    )
}

/// Whether an envelope is what an emitter stamps: the payload redacted, then
/// bounded.
pub open spec fn is_stamped(
    emitter: EmitterView,
    kind: Seq<char>,
    dimensions: Seq<(Seq<char>, JsonView)>,
    payload: Seq<(Seq<char>, JsonView)>,
    artifacts: Seq<ArtifactRef>,
    ts: Seq<char>,
    envelope: Envelope,
) -> bool {
    &&& envelope.v == emitter.version
    &&& envelope.ts@ == ts
    &&& envelope.stream@ == emitter.stream
    &&& envelope.source.0@ == emitter.source
    &&& envelope.kind.0@ == kind
    &&& fields_view(envelope.dimensions@) == dimensions
    &&& envelope.labels@ == emitter.labels
    &&& fields_view(envelope.payload@) == bounded_payload(redacted_fields(payload, emitter.secrets))
    &&& envelope.artifacts@ == artifacts
}

/// What a stream file holds, and how much of it a torn tail leaves.
#[derive(Debug)]
pub struct Recorded {
    /// How many whole records it holds.
    pub whole: u64,
    /// Where a torn tail starts, and how long it is, where there is one.
    pub torn: Option<Torn>,
}

/// How many whole records a stream file holds, and the torn tail to heal away.
pub fn recorded(contents: &Vec<u8>) -> (r: Recorded)
    ensures
        r.whole == whole_lines(contents@, 0).len(),
        match r.torn {
            Some(torn) => torn.at == torn_start(contents@, 0) && torn.bytes == contents@.len()
                - torn_start(contents@, 0) && torn.bytes > 0,
            None => torn_start(contents@, 0) == contents@.len(),
        },
{
    let size: usize = contents.len();
    let lines = read_lines(contents, 0);
    proof {
        assert(size == contents@.len());
        assert(lines_are(lines.whole@, 0).len() == lines.whole@.len());
    }
    Recorded { whole: lines.whole.len() as u64, torn: lines.torn }
}

/// What is said of a torn tail healed away.
pub fn healed_words(torn: &Torn, path: &str) -> (r: String)
    ensures
        r@ == "onemessagebus: healed a torn record of "@ + decimal(torn.bytes as nat)
            + " bytes at byte "@ + decimal(torn.at as nat) + " of "@ + path@,
{
    let lost = decimal_of(torn.bytes);
    let at = decimal_of(torn.at);
    cat6(
        "onemessagebus: healed a torn record of ",
        lost.as_str(),
        " bytes at byte ",
        at.as_str(),
        " of ",
        path,
    )
}

impl Emitter {
    /// The last number taken in memory, or nothing where the file numbers.
    pub closed spec fn taken(&self) -> Option<u64> {
        match self.numbering {
            Numbering::Single { taken } => Some(taken),
            Numbering::Shared { .. } => None,
        }
    }

    /// The file that numbers, where one does.
    pub closed spec fn shares(&self) -> Option<Seq<char>> {
        match self.numbering {
            Numbering::Single { .. } => None,
            Numbering::Shared { path } => Some(path@),
        }
    }

    /// The number before the next one: what was taken, or what the file holds.
    pub open spec fn before_next(&self, held: u64) -> u64 {
        match self.taken() {
            Some(taken) => taken,
            None => held,
        }
    }

    /// An emitter for `stream`, speaking as `source` at `version`, its numbers
    /// counted in memory: the single-writer stream.
    pub fn new(stream: &str, source: Source, version: u32, redactor: Redactor) -> (r: Self)
        ensures
            r.taken() == Some(0u64),
            is_plain(r@, stream@, source.0@, version, redactor@),
    {
        Emitter::build(stream, source, version, redactor, Numbering::Single { taken: 0 })
    }

    /// An emitter appending to the file at `path`, which other processes may append
    /// to at the same time: each envelope is numbered from what the file holds.
    pub fn shared(stream: &str, source: Source, version: u32, redactor: Redactor, path: &str) -> (r:
        Self)
        ensures
            r.taken() is None,
            r.shares() == Some(path@),
            is_plain(r@, stream@, source.0@, version, redactor@),
    {
        Emitter::build(
            stream,
            source,
            version,
            redactor,
            Numbering::Shared { path: path.to_owned() },
        )
    }

    fn build(
        stream: &str,
        source: Source,
        version: u32,
        redactor: Redactor,
        numbering: Numbering,
    ) -> (r: Self)
        ensures
            r.numbering == numbering,
            is_plain(r@, stream@, source.0@, version, redactor@),
    {
        let r = Emitter {
            stream: stream.to_owned(),
            source,
            version,
            numbering,
            labels: Labels::new(),
            dimensions: Vec::new(),
            filter: Filter::everything(),
            redactor,
        };
        proof {
            assert(r@.dimensions =~= Seq::<(Seq<char>, JsonView)>::empty());
            assert(r@.includes =~= Seq::<MatcherView>::empty());
            assert(r@.exclude =~= Seq::<MatcherView>::empty());
        }
        r
    }

    /// The same emitter, stamping `version`.
    pub fn with_version(self, version: u32) -> (r: Self)
        ensures
            r@ == (EmitterView { version, ..self@ }),
            r.taken() == self.taken(),
            r.shares() == self.shares(),
    {
        let mut emitter = self;
        emitter.version = version;
        emitter
    }

    /// The same emitter, putting only what `filter` takes on the stream.
    pub fn with_filter(self, filter: Filter) -> (r: Self)
        ensures
            r@ == (EmitterView {
                includes: matchers_view(filter.includes@),
                exclude: matchers_view(filter.exclude@),
                ..self@
            }),
            r.taken() == self.taken(),
            r.shares() == self.shares(),
    {
        let mut emitter = self;
        emitter.filter = filter;
        emitter
    }

    /// The same emitter, redacting through `redactor`.
    pub fn with_redactor(self, redactor: Redactor) -> (r: Self)
        ensures
            r@ == (EmitterView { secrets: redactor@, ..self@ }),
            r.taken() == self.taken(),
            r.shares() == self.shares(),
    {
        let mut emitter = self;
        emitter.redactor = redactor;
        emitter
    }

    /// The same emitter with `labels` stamped on everything it writes next, and its
    /// own filling in what they leave absent.
    pub fn with_labels(self, labels: Labels) -> (r: Self)
        ensures
            r@ == (EmitterView {
                labels: filled_with(labels@, self@.labels, self@.labels.len() as int),
                ..self@
            }),
            r.taken() == self.taken(),
            r.shares() == self.shares(),
    {
        let mut emitter = self;
        let filled = labels.filled(&emitter.labels);
        emitter.labels = filled;
        emitter
    }

    /// The same emitter with `dimensions` stamped on everything it writes next,
    /// unless an event names its own.
    pub fn with_dimensions(self, dimensions: Vec<(String, Json)>) -> (r: Self)
        ensures
            r@ == (EmitterView { dimensions: fields_view(dimensions@), ..self@ }),
            r.taken() == self.taken(),
            r.shares() == self.shares(),
    {
        let mut emitter = self;
        emitter.dimensions = dimensions;
        emitter
    }

    /// The stream id every envelope this emitter writes carries.
    pub fn stream(&self) -> (r: &str)
        ensures
            r@ == self@.stream,
    {
        self.stream.as_str()
    }

    /// The source every envelope this emitter writes carries.
    pub fn source(&self) -> (r: &Source)
        ensures
            r.0@ == self@.source,
    {
        &self.source
    }

    /// The envelope schema version this emitter stamps.
    pub fn version(&self) -> (r: u32)
        ensures
            r == self@.version,
    {
        self.version
    }

    /// The labels this emitter stamps.
    pub fn labels(&self) -> (r: &Labels)
        ensures
            r@ == self@.labels,
    {
        &self.labels
    }

    /// A copy of the dimensions this emitter stamps.
    pub fn dimensions(&self) -> (r: Vec<(String, Json)>)
        ensures
            fields_view(r@) == self@.dimensions,
    {
        copied_fields(&self.dimensions)
    }

    /// Stamps one event at the emitter's own dimensions; see
    /// [`try_emit_stamped`](Self::try_emit_stamped).
    pub fn try_emit(
        &mut self,
        kind: Kind,
        payload: &Vec<(String, Json)>,
        artifacts: Vec<ArtifactRef>,
        ts: String,
        held: u64,
    ) -> (r: Emitted)
        requires
            old(self).before_next(held) < u64::MAX,
        ensures
            final(self)@ == old(self)@,
            final(self).shares() == old(self).shares(),
            emitted_as(
                *old(self),
                *final(self),
                kind.0@,
                old(self)@.dimensions,
                fields_view(payload@),
                artifacts@,
                ts@,
                held,
                r,
            ),
    {
        let dimensions = self.dimensions();
        self.try_emit_stamped(kind, dimensions, payload, artifacts, ts, held)
    }

    /// One event stamped and not yet numbered: what is handed back where the file that
    /// numbers it could not be locked or read.
    pub fn stamped(
        &self,
        kind: Kind,
        dimensions: Vec<(String, Json)>,
        payload: &Vec<(String, Json)>,
        artifacts: Vec<ArtifactRef>,
        ts: String,
    ) -> (r: Envelope)
        ensures
            is_stamped(
                self@,
                kind.0@,
                fields_view(dimensions@),
                fields_view(payload@),
                artifacts@,
                ts@,
                r,
            ),
            r.seq == 0,
            r.kind == kind,
            r.dimensions == dimensions,
    {
        let clean = self.redactor.redact_fields(payload);
        let bounded = bound_payload(&clean);
        Envelope {
            v: self.version,
            ts,
            stream: self.stream.clone(),
            seq: 0,
            source: Source::new(self.source.as_str()),
            kind,
            dimensions,
            labels: self.labels.copied(),
            payload: bounded,
            artifacts,
        }
    }

    /// Stamps one event, numbered after what was taken, or after the `held` records
    /// the shared file holds, and its line where the filter takes it. An event it
    /// does not take carries the number the next one takes.
    pub fn try_emit_stamped(
        &mut self,
        kind: Kind,
        dimensions: Vec<(String, Json)>,
        payload: &Vec<(String, Json)>,
        artifacts: Vec<ArtifactRef>,
        ts: String,
        held: u64,
    ) -> (r: Emitted)
        requires
            old(self).before_next(held) < u64::MAX,
        ensures
            final(self)@ == old(self)@,
            final(self).shares() == old(self).shares(),
            emitted_as(
                *old(self),
                *final(self),
                kind.0@,
                fields_view(dimensions@),
                fields_view(payload@),
                artifacts@,
                ts@,
                held,
                r,
            ),
    {
        let admitted = self.filter.allows(
            self.source.as_str(),
            kind.as_str(),
            &dimensions,
            &self.labels.0,
        );
        let before = match &self.numbering {
            Numbering::Single { taken } => *taken,
            Numbering::Shared { .. } => held,
        };
        let mut envelope = self.stamped(kind, dimensions, payload, artifacts, ts);
        envelope.seq = before + 1;
        if !admitted {
            return Emitted { envelope, line: None };
        }
        let counted = match &self.numbering {
            Numbering::Single { .. } => true,
            Numbering::Shared { .. } => false,
        };
        if counted {
            self.numbering = Numbering::Single { taken: before + 1 };
        }
        let line = envelope.line();
        Emitted { envelope, line: Some(line) }
    }

    /// Whether it has a number left for the next event, its stream's file holding
    /// `held` records.
    pub fn can_emit(&self, held: u64) -> (r: bool)
        ensures
            r == (self.before_next(held) < u64::MAX),
    {
        match &self.numbering {
            Numbering::Single { taken } => *taken < u64::MAX,
            Numbering::Shared { .. } => held < u64::MAX,
        }
    }

    /// An envelope whose write failed.
    pub fn failed(&self, envelope: Envelope, failure: &str) -> (r: Unrecorded)
        ensures
            r.envelope == envelope,
            match r.error {
                EmitterError::Write { stream, kind, source } => stream@ == self@.stream && kind.0@
                    == envelope.kind.0@ && source@ == failure@,
                _ => false,
            },
    {
        let error = EmitterError::Write {
            stream: self.stream.clone(),
            kind: Kind::new(envelope.kind.as_str()),
            source: failure.to_owned(),
        };
        Unrecorded { envelope, error }
    }

    /// An envelope that would not serialize.
    pub fn unserializable(&self, envelope: Envelope, failure: &str) -> (r: Unrecorded)
        ensures
            r.envelope == envelope,
            match r.error {
                EmitterError::Serialize { stream, seq, kind, source } => stream@ == self@.stream
                    && seq == envelope.seq && kind.0@ == envelope.kind.0@ && source@ == failure@,
                _ => false,
            },
    {
        let error = EmitterError::Serialize {
            stream: self.stream.clone(),
            seq: envelope.seq,
            kind: Kind::new(envelope.kind.as_str()),
            source: failure.to_owned(),
        };
        Unrecorded { envelope, error }
    }

    /// An envelope whose file could not be locked.
    pub fn unlocked(&self, envelope: Envelope, path: &str, failure: &str) -> (r: Unrecorded)
        ensures
            r.envelope == envelope,
            match r.error {
                EmitterError::Lock { path: at, kind, source } => at@ == path@ && kind.0@
                    == envelope.kind.0@ && source@ == failure@,
                _ => false,
            },
    {
        let error = EmitterError::Lock {
            path: path.to_owned(),
            kind: Kind::new(envelope.kind.as_str()),
            source: failure.to_owned(),
        };
        Unrecorded { envelope, error }
    }
}

/// Whether an emitter is one with nothing set beside its stream, source, version
/// and redactor.
pub open spec fn is_plain(
    emitter: EmitterView,
    stream: Seq<char>,
    source: Seq<char>,
    version: u32,
    secrets: Seq<Seq<char>>,
) -> bool {
    emitter == (EmitterView {
        stream,
        source,
        version,
        labels: Seq::empty(),
        dimensions: Seq::empty(),
        includes: Seq::empty(),
        exclude: Seq::empty(),
        secrets,
    })
}

/// Whether an event was emitted as `emitted`: stamped, numbered after the last
/// number, and with its line, and its number taken, only where the filter takes it.
pub open spec fn emitted_as(
    before: Emitter,
    after: Emitter,
    kind: Seq<char>,
    dimensions: Seq<(Seq<char>, JsonView)>,
    payload: Seq<(Seq<char>, JsonView)>,
    artifacts: Seq<ArtifactRef>,
    ts: Seq<char>,
    held: u64,
    emitted: Emitted,
) -> bool {
    let admitted = emits(before@, kind, dimensions);
    &&& is_stamped(before@, kind, dimensions, payload, artifacts, ts, emitted.envelope)
    &&& emitted.envelope.seq == before.before_next(held) + 1
    &&& match emitted.line {
        Some(line) => admitted && line@ == text_of(envelope_json(emitted.envelope)) + "\n"@,
        None => !admitted,
    }
    &&& match before.taken() {
        Some(taken) => after.taken() == Some(
            if admitted {
                (taken + 1) as u64
            } else {
                taken
            },
        ),
        None => after.taken() is None,
    }
}

// ---------------------------------------------------------------------------
// Laws.
// ---------------------------------------------------------------------------

/// The numbers written by an emitter that had taken `taken`, event by event: one
/// for each the filter takes, after the last taken.
pub open spec fn written_numbers(taken: int, admitted: Seq<bool>) -> Seq<int>
    decreases admitted.len(),
{
    if admitted.len() == 0 {
        Seq::empty()
    } else if admitted[0] {
        seq![taken + 1] + written_numbers(taken + 1, admitted.skip(1))
    } else {
        written_numbers(taken, admitted.skip(1))
    }
}

/// The numbers a stream carries have no gap: what the filter does not take takes
/// none.
pub proof fn written_numbers_are_gapless(taken: int, admitted: Seq<bool>, i: int)
    requires
        0 <= i < written_numbers(taken, admitted).len(),
    ensures
        written_numbers(taken, admitted)[i] == taken + 1 + i,
    decreases admitted.len(),
{
    if admitted[0] {
        if i > 0 {
            written_numbers_are_gapless(taken + 1, admitted.skip(1), i - 1);
        }
    } else {
        written_numbers_are_gapless(taken, admitted.skip(1), i);
    }
}

/// An envelope as it is emitted takes the next of those numbers.
pub proof fn emitting_takes_the_next_number(
    before: Emitter,
    after: Emitter,
    kind: Seq<char>,
    dimensions: Seq<(Seq<char>, JsonView)>,
    payload: Seq<(Seq<char>, JsonView)>,
    artifacts: Seq<ArtifactRef>,
    ts: Seq<char>,
    emitted: Emitted,
    rest: Seq<bool>,
)
    requires
        before.taken() is Some,
        before.taken()->0 < u64::MAX,
        emitted_as(before, after, kind, dimensions, payload, artifacts, ts, 0, emitted),
    ensures
        after.taken() is Some,
        written_numbers(before.taken()->0 as int, seq![emitted.line is Some] + rest) == if emitted.line is Some {
            seq![emitted.envelope.seq as int] + written_numbers(after.taken()->0 as int, rest)
        } else {
            written_numbers(after.taken()->0 as int, rest)
        },
{
    assert((seq![emitted.line is Some] + rest).skip(1) =~= rest);
}

/// A record appended to a healed stream file is the next one the file holds: the
/// file numbers one gapless series.
pub proof fn appended_record_is_the_next(contents: Seq<u8>, record: Seq<u8>)
    requires
        torn_start(contents, 0) == contents.len(),
        !record.contains(NEWLINE),
    ensures
        whole_lines(contents + record.push(NEWLINE), 0).len() == whole_lines(contents, 0).len() + 1,
        torn_start(contents + record.push(NEWLINE), 0) == (contents + record.push(NEWLINE)).len(),
{
    let line = record.push(NEWLINE);
    let all = contents + line;
    resuming_reads_on(contents, line, 0);
    let from = contents.len() as int;
    lemma_line_end(all, from);
    let end = line_end(all, from);
    assert(all[all.len() - 1] == NEWLINE);
    if end < all.len() - 1 {
        assert(all[end] == record[end - from]);
        assert(record.contains(NEWLINE));
    }
    assert(end == all.len() - 1);
    lemma_line_end(all, all.len() as int);
    reveal_with_fuel(whole_lines, 3);
    assert(whole_lines(all, from).len() == 1);
    lemma_torn_start_goes_on(contents, line, 0);
    reveal_with_fuel(torn_start, 3);
}

proof fn lemma_torn_start_goes_on(first: Seq<u8>, more: Seq<u8>, from: int)
    requires
        0 <= from <= first.len(),
    ensures
        torn_start(first + more, from) == torn_start(first + more, torn_start(first, from)),
    decreases first.len() - from,
{
    lemma_line_end(first, from);
    let end = line_end(first, from);
    if end < first.len() {
        lemma_line_end_extends(first, more, from);
        lemma_torn_start_goes_on(first, more, end + 1);
    }
}

} // verus!
