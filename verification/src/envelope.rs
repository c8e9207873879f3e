//! The one envelope: one JSON object per line.
//!
//! Nothing here emits, orders, bounds or redacts anything: this is the wire shape
//! and the types that fill it.

use crate::codec::{set_absent, with_absent};
use crate::fold::lemma_field_of_with;
use crate::json::{
    Json, JsonView, NumberView, copied_fields, field, fields_view, get_field, group_json_views,
    items_view, set_field, text_of, with_field,
};
use crate::text::cat2;
use vstd::prelude::*;

verus! {

/// What happened, as the kebab-case wire word.
#[derive(Debug, PartialEq, Eq, PartialOrd, Ord, Hash)]
pub struct Kind(pub String);

impl Kind {
    /// The kind a word names.
    pub fn new(word: &str) -> (r: Self)
        ensures
            r.0@ == word@,
    {
        Kind(word.to_owned())
    }

    /// The wire spelling, which is what a filter's glob matches.
    pub fn as_str(&self) -> (r: &str)
        ensures
            r@ == self.0@,
    {
        self.0.as_str()
    }
}

/// What produced an event, by name.
#[derive(Debug, PartialEq, Eq, PartialOrd, Ord, Hash)]
pub struct Source(pub String);

impl Source {
    /// The source a word names.
    pub fn new(word: &str) -> (r: Self)
        ensures
            r.0@ == word@,
    {
        Source(word.to_owned())
    }

    /// The word as it travels.
    pub fn as_str(&self) -> (r: &str)
        ensures
            r@ == self.0@,
    {
        self.0.as_str()
    }
}

/// Labels: whatever the producer stamped, in order.
#[derive(Debug)]
pub struct Labels(pub Vec<(String, Json)>);

impl View for Labels {
    type V = Seq<(Seq<char>, JsonView)>;

    open spec fn view(&self) -> Seq<(Seq<char>, JsonView)> {
        fields_view(self.0@)
    }
}

impl Labels {
    /// No labels at all.
    pub fn new() -> (r: Self)
        ensures
            r@ == Seq::<(Seq<char>, JsonView)>::empty(),
    {
        let r = Labels(Vec::new());
        proof {
            assert(r@ =~= Seq::<(Seq<char>, JsonView)>::empty());
        }
        r
    }

    /// What is stamped under `key`, when it is text.
    pub fn get_str(&self, key: &str) -> (r: Option<&str>)
        ensures
            match r {
                Some(text) => field(self@, key@) == Some(JsonView::Str(text@)),
                None => !(field(self@, key@) is Some && field(self@, key@)->0 is Str),
            },
    {
        match get_field(&self.0, key) {
            Some(value) => value.as_str(),
            None => None,
        }
    }

    /// Stamps `value` under `key`, replacing what was there.
    pub fn insert(&mut self, key: &str, value: Json)
        ensures
            final(self)@ == with_field(old(self)@, key@, value@),
    {
        set_field(&mut self.0, key, value);
    }

    /// The same labels with `value` stamped under `key`.
    pub fn with(self, key: &str, value: Json) -> (r: Self)
        ensures
            r@ == with_field(self@, key@, value@),
    {
        let mut labels = self;
        labels.insert(key, value);
        labels
    }

    /// The same labels.
    pub fn copied(&self) -> (r: Self)
        ensures
            r@ == self@,
    {
        Labels(copied_fields(&self.0))
    }

    /// These labels, with what `fill` stamps and they do not: nothing they hold is
    /// rewritten.
    pub fn filled(&self, fill: &Labels) -> (r: Self)
        ensures
            r@ == filled_with(self@, fill@, fill@.len() as int),
    {
        let ghost base = self@;
        let ghost more = fill@;
        let mut out = copied_fields(&self.0);
        let mut i: usize = 0;
        while i < fill.0.len()
            invariant
                i <= fill.0@.len(),
                more == fields_view(fill.0@),
                fields_view(out@) == filled_with(base, more, i as int),
            decreases fill.0@.len() - i,
        {
            set_absent(&mut out, fill.0[i].0.as_str(), fill.0[i].1.copied());
            i += 1;
        }
        Labels(out)
    }
}

/// Fields with the first `n` of `fill` that they do not carry.
pub open spec fn filled_with(
    base: Seq<(Seq<char>, JsonView)>,
    fill: Seq<(Seq<char>, JsonView)>,
    n: int,
) -> Seq<(Seq<char>, JsonView)>
    decreases n,
{
    if n <= 0 || n > fill.len() {
        base
    } else {
        with_absent(filled_with(base, fill, n - 1), fill[n - 1].0, fill[n - 1].1)
    }
}

/// What an emitter stamped for itself is never rewritten by what fills in beside
/// it.
pub proof fn filling_never_rewrites(
    base: Seq<(Seq<char>, JsonView)>,
    fill: Seq<(Seq<char>, JsonView)>,
    n: int,
    key: Seq<char>,
)
    requires
        field(base, key) is Some,
    ensures
        field(filled_with(base, fill, n), key) == field(base, key),
    decreases n,
{
    if n > 0 && n <= fill.len() {
        filling_never_rewrites(base, fill, n - 1, key);
        let before = filled_with(base, fill, n - 1);
        if field(before, fill[n - 1].0) is None {
            lemma_field_of_with(before, fill[n - 1].0, fill[n - 1].1, key);
        }
    }
}

/// No top-level dimensions.
#[derive(Debug, Clone, Copy, PartialEq, Eq)]
pub struct NoDimensions {}

/// Evidence too large for a payload: stored by the producer and referenced by id.
#[derive(Debug)]
pub struct ArtifactRef {
    /// Its id, unique within the producer's store.
    pub id: String,
    /// What it is.
    pub kind: String,
    /// How large it is.
    pub bytes: u64,
}

/// One event, as a producer writes it and as a consumer reads it.
#[derive(Debug)]
pub struct Envelope {
    /// The envelope schema version the producer wrote against.
    pub v: u32,
    /// RFC 3339, millisecond precision, UTC.
    pub ts: String,
    /// Unique id of the producing process.
    pub stream: String,
    /// Monotonic per stream.
    pub seq: u64,
    /// What produced the event.
    pub source: Source,
    /// What happened.
    pub kind: Kind,
    /// The reserved top-level dimensions, carried between `kind` and `labels`.
    pub dimensions: Vec<(String, Json)>,
    /// What the producer stamped.
    pub labels: Labels,
    /// Kind-specific detail.
    pub payload: Vec<(String, Json)>,
    /// Evidence stored by the producer.
    pub artifacts: Vec<ArtifactRef>,
}

/// What an artifact is written as.
pub open spec fn artifact_json(artifact: ArtifactRef) -> JsonView {
    JsonView::Object(
        seq![
            ("id"@, JsonView::Str(artifact.id@)),
            ("kind"@, JsonView::Str(artifact.kind@)),
            ("bytes"@, JsonView::Number(NumberView::Int(artifact.bytes as int))),
        ],
    )
}

/// What artifacts are written as.
pub open spec fn artifacts_json(artifacts: Seq<ArtifactRef>) -> JsonView {
    JsonView::Array(Seq::new(artifacts.len(), |i: int| artifact_json(artifacts[i])))
}

/// What an envelope is written as: its fields in order, its dimensions between
/// `kind` and `labels`.
pub open spec fn envelope_json(envelope: Envelope) -> JsonView {
    JsonView::Object(
        seq![
            ("v"@, JsonView::Number(NumberView::Int(envelope.v as int))),
            ("ts"@, JsonView::Str(envelope.ts@)),
            ("stream"@, JsonView::Str(envelope.stream@)),
            ("seq"@, JsonView::Number(NumberView::Int(envelope.seq as int))),
            ("source"@, JsonView::Str(envelope.source.0@)),
            ("kind"@, JsonView::Str(envelope.kind.0@)),
        ] + fields_view(envelope.dimensions@) + seq![
            ("labels"@, JsonView::Object(envelope.labels@)),
            ("payload"@, JsonView::Object(fields_view(envelope.payload@))),
            ("artifacts"@, artifacts_json(envelope.artifacts@)),
        ],
    )
}

/// The key streams merge in.
pub open spec fn order_key_of(envelope: Envelope) -> (Seq<char>, Seq<char>, u64) {
    (envelope.ts@, envelope.stream@, envelope.seq)
}

pub(crate) fn put(fields: &mut Vec<(String, Json)>, key: &str, value: Json)
    ensures
        fields_view(final(fields)@) == fields_view(old(fields)@).push((key@, value@)),
{
    let ghost before = fields_view(fields@);
    let ghost one = (key@, value@);
    fields.push((key.to_owned(), value));
    proof {
        assert(fields_view(fields@) =~= before.push(one));
    }
}

impl ArtifactRef {
    /// What it is written as.
    pub fn to_json(&self) -> (r: Json)
        ensures
            r@ == artifact_json(*self),
    {
        broadcast use group_json_views;

        let mut fields: Vec<(String, Json)> = Vec::new();
        proof {
            assert(fields_view(fields@) =~= Seq::<(Seq<char>, JsonView)>::empty());
        }
        put(&mut fields, "id", Json::text(self.id.as_str()));
        put(&mut fields, "kind", Json::text(self.kind.as_str()));
        put(&mut fields, "bytes", Json::whole(self.bytes));
        proof {
            assert(fields_view(fields@) =~= artifact_json(*self)->Object_0);
        }
        Json::Object(fields)
    }
}

impl Envelope {
    /// The key streams merge in: the timestamp, the stream and the number.
    pub fn order_key(&self) -> (r: (&str, &str, u64))
        ensures
            (r.0@, r.1@, r.2) == order_key_of(*self),
    {
        (self.ts.as_str(), self.stream.as_str(), self.seq)
    }

    /// What it is written as.
    pub fn to_json(&self) -> (r: Json)
        ensures
            r@ == envelope_json(*self),
    {
        broadcast use group_json_views;

        let mut fields: Vec<(String, Json)> = Vec::new();
        proof {
            assert(fields_view(fields@) =~= Seq::<(Seq<char>, JsonView)>::empty());
        }
        put(&mut fields, "v", Json::whole(self.v as u64));
        put(&mut fields, "ts", Json::text(self.ts.as_str()));
        put(&mut fields, "stream", Json::text(self.stream.as_str()));
        put(&mut fields, "seq", Json::whole(self.seq));
        put(&mut fields, "source", Json::text(self.source.as_str()));
        put(&mut fields, "kind", Json::text(self.kind.as_str()));
        let ghost head = fields_view(fields@);
        let ghost dims = fields_view(self.dimensions@);
        let mut i: usize = 0;
        while i < self.dimensions.len()
            invariant
                i <= self.dimensions@.len(),
                dims == fields_view(self.dimensions@),
                fields_view(fields@) =~= head + dims.take(i as int),
            decreases self.dimensions@.len() - i,
        {
            proof {
                assert(dims.take(i + 1) =~= dims.take(i as int).push(dims[i as int]));
            }
            put(&mut fields, self.dimensions[i].0.as_str(), self.dimensions[i].1.copied());
            i += 1;
        }
        let mut artifacts: Vec<Json> = Vec::new();
        let mut i: usize = 0;
        while i < self.artifacts.len()
            invariant
                i <= self.artifacts@.len(),
                items_view(artifacts@) =~= artifacts_json(self.artifacts@)->Array_0.take(i as int),
            decreases self.artifacts@.len() - i,
        {
            let ghost before = items_view(artifacts@);
            artifacts.push(self.artifacts[i].to_json());
            proof {
                assert(items_view(artifacts@) =~= before.push(
                    artifact_json(self.artifacts@[i as int]),
                ));
            }
            i += 1;
        }
        proof {
            assert(items_view(artifacts@) =~= artifacts_json(self.artifacts@)->Array_0);
        }
        let ghost middle = fields_view(fields@);
        put(&mut fields, "labels", Json::Object(copied_fields(&self.labels.0)));
        put(&mut fields, "payload", Json::Object(copied_fields(&self.payload)));
        put(&mut fields, "artifacts", Json::Array(artifacts));
        proof {
            assert(fields_view(fields@) =~= envelope_json(*self)->Object_0);
        }
        Json::Object(fields)
    }

    /// One envelope as its line: the JSON and the newline that ends the record.
    pub fn line(&self) -> (r: String)
        ensures
            r@ == text_of(envelope_json(*self)) + "\n"@,
    {
        let json = self.to_json();
        let text = json.render();
        cat2(text.as_str(), "\n")
    }
}

} // verus!
