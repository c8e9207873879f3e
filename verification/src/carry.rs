//! The carry backend: messages kept for a receiver that is not running now.
//!
//! A store is one file: a header line naming it a carry store, then one record per
//! line in the order they were carried.

use crate::bounds::lemma_drop_width;
use crate::envelope::put;
use crate::inbox::{BackendError, Inbox, InboxView, Undelivered, queued_all};
use crate::json::{
    Json, JsonView, NumberView, fields_view, group_json_views, member, parsed_json, same,
    text_of,
};
use crate::schema::{SchemaId, id_text, parsed_id};
use crate::text::{
    byte_len, cat2, cat4, cat5, cat6, chars_of, decimal, decimal_of, first_at, first_of,
    is_digit, quoted, quoted_of, same_text, split, split_on, string_of, texts,
};
use vstd::prelude::*;
use vstd::utf8::encode_utf8;

verus! {

/// The shape of a carry store's header and records.
pub const CARRY_SCHEMA_VERSION: u32 = 1;

/// The word a store's header names itself with.
pub const STORE_KIND: &'static str = "onemessagebus-carry-store";

/// What a path is expected to be, in a refusal.
pub const STORE_WHAT: &'static str = "a carry store";

/// The carry backend's entry points.
#[derive(Debug, Clone, Copy)]
pub struct Carry;

/// A store's header.
#[derive(Debug)]
pub struct StoreHeader {
    /// The version it declares.
    pub schema_version: u32,
    /// The word it names itself with.
    pub kind: String,
}

/// One carried message, as the store holds it.
#[derive(Debug)]
pub struct CarriedEntry {
    /// When it was carried: RFC 3339, millisecond precision, UTC.
    pub ts: String,
    /// The schema the message is.
    pub schema: SchemaId,
    /// The message.
    pub message: Json,
}

/// Whether an error is that a path is no carry store.
pub open spec fn is_absent(error: BackendError, store: Seq<char>, reason: Seq<char>) -> bool {
    match error {
        BackendError::Absent { what, path, why } => what@ == STORE_WHAT@ && path@ == store && why@
            == reason,
        _ => false,
    }
}

/// Whether an error is that a store holds what is not read.
pub open spec fn is_unreadable(error: BackendError, store: Seq<char>, reason: Seq<char>) -> bool {
    match error {
        BackendError::Unreadable { at, file, why } => at@ == store && file@ == store && why@
            == reason,
        _ => false,
    }
}

/// The refusal of a path that is no carry store.
pub fn absent(store: &str, why: &str) -> (r: BackendError)
    ensures
        is_absent(r, store@, why@),
{
    BackendError::Absent {
        what: STORE_WHAT.to_owned(),
        path: store.to_owned(),
        why: why.to_owned(),
    }
}

fn unreadable(store: &str, why: String) -> (r: BackendError)
    ensures
        is_unreadable(r, store@, why@),
{
    BackendError::Unreadable { at: store.to_owned(), file: store.to_owned(), why }
}

// ---------------------------------------------------------------------------
// Stamps.
// ---------------------------------------------------------------------------

/// Whether a character is what the shape of a stamp has there.
pub open spec fn stamp_has(i: int, c: char) -> bool {
    if i == 4 || i == 7 {
        c == '-'
    } else if i == 10 {
        c == 'T'
    } else if i == 13 || i == 16 {
        c == ':'
    } else if i == 19 {
        c == '.'
    } else if i == 23 {
        c == 'Z'
    } else {
        is_digit(c)
    }
}

/// Whether `ts` is a stamp: `YYYY-MM-DDTHH:MM:SS.mmmZ`.
pub open spec fn is_stamp_text(ts: Seq<char>) -> bool {
    ts.len() == 24 && forall|i: int| 0 <= i < 24 ==> stamp_has(i, #[trigger] ts[i])
}

/// Whether `ts` is a stamp.
pub fn is_stamp(ts: &str) -> (r: bool)
    ensures
        r == is_stamp_text(ts@),
{
    let chars = chars_of(ts);
    if chars.len() != 24 {
        return false;
    }
    let mut i: usize = 0;
    while i < 24
        invariant
            i <= 24,
            chars@ == ts@,
            ts@.len() == 24,
            forall|k: int| 0 <= k < i ==> stamp_has(k, #[trigger] ts@[k]),
        decreases 24 - i,
    {
        let c = chars[i];
        let fits = if i == 4 || i == 7 {
            c == '-'
        } else if i == 10 {
            c == 'T'
        } else if i == 13 || i == 16 {
            c == ':'
        } else if i == 19 {
            c == '.'
        } else if i == 23 {
            c == 'Z'
        } else {
            '0' <= c && c <= '9'
        };
        if !fits {
            proof {
                assert(!stamp_has(i as int, ts@[i as int]));
            }
            return false;
        }
        i += 1;
    }
    true
}

// ---------------------------------------------------------------------------
// Reading a store.
// ---------------------------------------------------------------------------

/// A store's text, cut after its header line.
pub struct StoreSplit {
    pub header: Seq<char>,
    pub records: Seq<char>,
}

/// What stands before the first newline, and what follows it.
pub open spec fn split_header(contents: Seq<char>) -> Option<StoreSplit> {
    match first_at(contents, '\n') {
        Some(at) => Some(
            StoreSplit { header: contents.take(at), records: contents.skip(at + 1) },
        ),
        None => None,
    }
}

/// A line without the carriage return it ends with.
pub open spec fn bare_line(line: Seq<char>) -> Seq<char> {
    if line.len() > 0 && line.last() == '\r' {
        line.drop_last()
    } else {
        line
    }
}

/// The lines of text whose every line is ended.
pub open spec fn ended_lines(text: Seq<char>) -> Seq<Seq<char>> {
    let pieces = split_on(text, '\n');
    Seq::new((pieces.len() - 1) as nat, |i: int| bare_line(pieces[i]))
}

/// What is wrong with a store before its records are read: that it has no header,
/// that its header is another's, or that it ends in a torn record.
pub enum StoreFault {
    Absent(Seq<char>),
    Unreadable(Seq<char>),
}

/// What is wrong with a store, given what its header reads as.
pub open spec fn store_fault(contents: Seq<char>, header: Option<StoreHeader>) -> Option<
    StoreFault,
> {
    match split_header(contents) {
        None => Some(
            StoreFault::Absent(
                if contents.len() == 0 {
                    "it is empty, and a carry store starts with its header line"@
                } else {
                    "it has no header line"@
                },
            ),
        ),
        Some(StoreSplit { records, .. }) => match header {
            Some(read) if read.kind@ == STORE_KIND@ => if read.schema_version
                != CARRY_SCHEMA_VERSION {
                Some(
                    StoreFault::Unreadable(
                        "it declares schema_version "@ + decimal(read.schema_version as nat)
                            + ", and this build reads "@ + decimal(CARRY_SCHEMA_VERSION as nat),
                    ),
                )
            } else if records.len() > 0 && records.last() != '\n' {
                Some(StoreFault::Unreadable("it ends in a torn record"@))
            } else {
                None
            },
            _ => Some(StoreFault::Absent("its first line is not a carry store's header"@)),
        },
    }
}

/// What is wrong with the first record from `from` on: that it does not read, or
/// that its stamp is none.
pub open spec fn records_fault(read: Seq<Result<CarriedEntry, String>>, from: int) -> Option<
    Seq<char>,
>
    decreases read.len() - from,
{
    if from < 0 || from >= read.len() {
        None
    } else {
        match read[from] {
            Err(why) => Some("record "@ + decimal((from + 1) as nat) + ": "@ + why@),
            Ok(entry) => if !is_stamp_text(entry.ts@) {
                Some(
                    "record "@ + decimal((from + 1) as nat) + ": its ts "@ + quoted(entry.ts@)
                        + " is not RFC 3339 with millisecond precision in UTC"@,
                )
            } else {
                records_fault(read, from + 1)
            },
        }
    }
}

/// Records that read.
pub open spec fn entries_read(read: Seq<Result<CarriedEntry, String>>) -> Seq<CarriedEntry> {
    Seq::new(read.len(), |i: int| read[i]->Ok_0)
}

/// Whether an error is a store's fault.
pub open spec fn is_fault(error: BackendError, store: Seq<char>, fault: StoreFault) -> bool {
    match fault {
        StoreFault::Absent(why) => is_absent(error, store, why),
        StoreFault::Unreadable(why) => is_unreadable(error, store, why),
    }
}

/// A store's text: its header line, and its records' lines.
#[derive(Debug)]
pub struct StoreText {
    /// The header line.
    pub header: String,
    /// How many bytes the header line is, its newline too.
    pub header_bytes: usize,
    /// The records' lines.
    pub records: Vec<String>,
}

/// The header line of a store, where it has one, and the text after it.
pub fn header_of(contents: &str) -> (r: Option<(String, String)>)
    ensures
        match r {
            Some((header, records)) => split_header(contents@) == Some(
                StoreSplit { header: header@, records: records@ },
            ),
            None => split_header(contents@) is None,
        },
{
    let chars = chars_of(contents);
    let len: usize = chars.len();
    match first_of(&chars, '\n') {
        Some(at) => {
            let header = string_of(&chars, 0, at);
            let records = string_of(&chars, at + 1, len);
            proof {
                assert(header@ =~= contents@.take(at as int));
                assert(records@ =~= contents@.skip(at + 1));
            }
            Some((header, records))
        },
        None => None,
    }
}

fn strip_return(line: &str) -> (r: String)
    ensures
        r@ == bare_line(line@),
{
    let chars = chars_of(line);
    if chars.len() > 0 && chars[chars.len() - 1] == '\r' {
        let r = string_of(&chars, 0, chars.len() - 1);
        proof {
            assert(r@ =~= line@.drop_last());
        }
        r
    } else {
        line.to_owned()
    }
}

/// The text of a store, given what its header reads as: refused where it is no
/// store of this shape.
pub fn store_text(store: &str, contents: &str, header: &Option<StoreHeader>) -> (r: Result<
    StoreText,
    BackendError,
>)
    ensures
        match r {
            Ok(text) => {
                &&& store_fault(contents@, *header) is None
                &&& split_header(contents@) is Some
                &&& text.header@ == split_header(contents@)->0.header
                &&& texts(text.records@) == ended_lines(split_header(contents@)->0.records)
                &&& text.header_bytes == encode_utf8(text.header@).len() + 1
            },
            Err(e) => store_fault(contents@, *header) is Some && is_fault(
                e,
                store@,
                store_fault(contents@, *header)->0,
            ),
        },
{
    let (first, records) = match header_of(contents) {
        Some(split) => split,
        None => {
            return Err(
                absent(
                    store,
                    if contents.is_empty() {
                        "it is empty, and a carry store starts with its header line"
                    } else {
                        "it has no header line"
                    },
                ),
            );
        },
    };
    let named = match header {
        Some(read) => same_text(read.kind.as_str(), STORE_KIND),
        None => false,
    };
    if !named {
        return Err(absent(store, "its first line is not a carry store's header"));
    }
    if let Some(read) = header {
        if read.schema_version != CARRY_SCHEMA_VERSION {
            let found = decimal_of(read.schema_version as u64);
            let wanted = decimal_of(CARRY_SCHEMA_VERSION as u64);
            return Err(
                unreadable(
                    store,
                    cat4(
                        "it declares schema_version ",
                        found.as_str(),
                        ", and this build reads ",
                        wanted.as_str(),
                    ),
                ),
            );
        }
    }
    let chars = chars_of(records.as_str());
    if chars.len() > 0 && chars[chars.len() - 1] != '\n' {
        return Err(unreadable(store, "it ends in a torn record".to_owned()));
    }
    let pieces = split(records.as_str(), '\n');
    let ghost all = split_on(records@, '\n');
    let mut lines: Vec<String> = Vec::new();
    let mut i: usize = 0;
    proof {
        assert(texts(pieces@).len() == pieces@.len());
    }
    while i < pieces.len() - 1
        invariant
            i < pieces@.len(),
            all == split_on(records@, '\n'),
            texts(pieces@) == all,
            pieces@.len() == all.len(),
            texts(lines@) =~= ended_lines(records@).take(i as int),
        decreases pieces@.len() - i,
    {
        let ghost before = texts(lines@);
        proof {
            assert(texts(pieces@)[i as int] == pieces@[i as int]@);
        }
        lines.push(strip_return(pieces[i].as_str()));
        proof {
            assert(texts(lines@) =~= before.push(bare_line(all[i as int])));
            assert(ended_lines(records@)[i as int] == bare_line(all[i as int]));
        }
        i += 1;
    }
    proof {
        assert(texts(lines@) =~= ended_lines(records@));
    }
    let size = byte_len(contents);
    let header_bytes = byte_len(first.as_str());
    proof {
        lemma_header_is_shorter(contents@);
    }
    Ok(StoreText { header: first, header_bytes: header_bytes + 1, records: lines })
}

proof fn lemma_header_is_shorter(contents: Seq<char>)
    requires
        split_header(contents) is Some,
    ensures
        encode_utf8(split_header(contents)->0.header).len() < encode_utf8(contents).len(),
    decreases contents.len(),
{
    lemma_first_at_holds(contents, '\n');
    let at = first_at(contents, '\n')->0;
    lemma_prefix_bytes(contents, at);
    lemma_prefix_bytes(contents, at + 1);
}

proof fn lemma_first_at_holds(text: Seq<char>, c: char)
    requires
        first_at(text, c) is Some,
    ensures
        0 <= first_at(text, c)->0 < text.len(),
    decreases text.len(),
{
    if text.len() > 0 && text[0] != c {
        lemma_first_at_holds(text.skip(1), c);
    }
}

proof fn lemma_prefix_bytes(text: Seq<char>, n: int)
    requires
        0 <= n <= text.len(),
    ensures
        encode_utf8(text.take(n)).len() <= encode_utf8(text).len(),
        n < text.len() ==> encode_utf8(text.take(n)).len() < encode_utf8(text).len(),
    decreases text.len(),
{
    if n < text.len() {
        lemma_drop_width(text);
        vstd::utf8::char_is_scalar(text.last());
        if n < text.len() - 1 {
            lemma_prefix_bytes(text.drop_last(), n);
        }
        assert(text.drop_last().take(n) =~= text.take(n));
        if n == text.len() - 1 {
            assert(text.take(n) =~= text.drop_last());
        }
    } else {
        assert(text.take(n) =~= text);
    }
}

/// The records of a store, given what each line reads as: refused at the first that
/// is no record.
pub fn records_of(store: &str, read: Vec<Result<CarriedEntry, String>>) -> (r: Result<
    Vec<CarriedEntry>,
    BackendError,
>)
    ensures
        match r {
            Ok(entries) => records_fault(read@, 0) is None && entries@ == entries_read(read@),
            Err(e) => records_fault(read@, 0) is Some && is_unreadable(
                e,
                store@,
                records_fault(read@, 0)->0,
            ),
        },
{
    let ghost all = read@;
    let count: usize = read.len();
    let mut rest = read;
    let mut entries: Vec<CarriedEntry> = Vec::new();
    let mut i: usize = 0;
    proof {
        assert(all.skip(0) =~= all);
    }
    while rest.len() > 0
        invariant
            i + rest@.len() == count == all.len(),
            all == read@,
            rest@ =~= all.skip(i as int),
            entries@ =~= entries_read(all).take(i as int),
            records_fault(all, 0) == records_fault(all, i as int),
        decreases rest@.len(),
    {
        proof {
            assert(rest@[0] == all[i as int]);
        }
        let index = decimal_of(i as u64 + 1);
        match rest.remove(0) {
            Err(why) => {
                return Err(
                    unreadable(store, cat4("record ", index.as_str(), ": ", why.as_str())),
                );
            },
            Ok(entry) => {
                if !is_stamp(entry.ts.as_str()) {
                    let shown = quoted_of(entry.ts.as_str());
                    return Err(
                        unreadable(
                            store,
                            cat5(
                                "record ",
                                index.as_str(),
                                ": its ts ",
                                shown.as_str(),
                                " is not RFC 3339 with millisecond precision in UTC",
                            ),
                        ),
                    );
                }
                entries.push(entry);
            },
        }
        i += 1;
    }
    proof {
        assert(entries@ =~= entries_read(all));
    }
    Ok(entries)
}

/// The lines of a store's records.
pub open spec fn record_lines(contents: Seq<char>) -> Seq<Seq<char>> {
    match split_header(contents) {
        Some(split) => ended_lines(split.records),
        None => Seq::empty(),
    }
}

/// Whether a record is what a line, where it is an object, says: its `ts`, its `schema`
/// and its `message`.
pub open spec fn says_record(line: Seq<char>, entry: CarriedEntry) -> bool {
    match parsed_json(line) {
        Ok(value) => value is Object ==> {
            &&& member(value, "ts"@) == Some(JsonView::Str(entry.ts@))
            &&& match member(value, "schema"@) {
                Some(JsonView::Str(text)) => parsed_id(text) is Ok && parsed_id(text)->Ok_0
                    == entry.schema@,
                _ => false,
            }
            &&& match member(value, "message"@) {
                Some(message) => same(message, entry.message@),
                None => false,
            }
        },
        Err(_) => false,
    }
}

/// Whether `read` is what each line reads as, one for each.
pub open spec fn reads_lines(lines: Seq<Seq<char>>, read: Seq<Result<CarriedEntry, String>>) -> bool {
    &&& read.len() == lines.len()
    &&& forall|i: int|
        0 <= i < read.len() && (#[trigger] read[i]) is Ok ==> says_record(lines[i], read[i]->Ok_0)
}

fn line_says(line: &str, entry: &CarriedEntry) -> (r: bool)
    ensures
        r == says_record(line@, *entry),
{
    broadcast use group_json_views;

    let value = match Json::parse(line) {
        Ok(value) => value,
        Err(_) => return false,
    };
    match &value {
        Json::Object(_) => {},
        _ => return true,
    }
    let stamped = match value.get("ts") {
        Some(Json::Str(ts)) => same_text(ts.as_str(), entry.ts.as_str()),
        _ => false,
    };
    let named = match value.get("schema") {
        Some(Json::Str(text)) => match SchemaId::from_str(text.as_str()) {
            Ok(id) => id.equals(&entry.schema),
            Err(_) => false,
        },
        _ => false,
    };
    stamped && named && match value.get("message") {
        Some(message) => message.equals(&entry.message),
        None => false,
    }
}

fn lines_read_as(lines: &Vec<String>, read: &Vec<Result<CarriedEntry, String>>) -> (r: bool)
    ensures
        r == reads_lines(texts(lines@), read@),
{
    let ghost all = texts(lines@);
    proof {
        assert(all.len() == lines@.len());
    }
    if read.len() != lines.len() {
        return false;
    }
    let mut i: usize = 0;
    while i < read.len()
        invariant
            i <= read@.len() == lines@.len(),
            all == texts(lines@),
            forall|k: int|
                0 <= k < i && (#[trigger] read@[k]) is Ok ==> says_record(all[k], read@[k]->Ok_0),
        decreases read@.len() - i,
    {
        if let Ok(entry) = &read[i] {
            if !line_says(lines[i].as_str(), entry) {
                proof {
                    assert(all[i as int] == lines@[i as int]@);
                    assert(read@[i as int] is Ok);
                }
                return false;
            }
        }
        i += 1;
    }
    true
}

/// A store's records, and how many bytes its header line is, given what its header
/// and each of its records' lines read as; nothing where `read` is not what the lines
/// read as.
pub fn parse(
    store: &str,
    contents: &str,
    header: &Option<StoreHeader>,
    read: Vec<Result<CarriedEntry, String>>,
) -> (r: Option<Result<(usize, Vec<CarriedEntry>), BackendError>>)
    ensures
        match store_fault(contents@, *header) {
            Some(fault) => r is Some && r->0 is Err && is_fault(r->0->Err_0, store@, fault),
            None => if reads_lines(record_lines(contents@), read@) {
                match r {
                    Some(Ok((size, entries))) => {
                        &&& records_fault(read@, 0) is None
                        &&& split_header(contents@) is Some
                        &&& size == encode_utf8(split_header(contents@)->0.header).len() + 1
                        &&& entries@ == entries_read(read@)
                    },
                    Some(Err(e)) => records_fault(read@, 0) is Some && is_unreadable(
                        e,
                        store@,
                        records_fault(read@, 0)->0,
                    ),
                    None => false,
                }
            } else {
                r is None
            },
        },
{
    let text = match store_text(store, contents, header) {
        Ok(text) => text,
        Err(e) => return Some(Err(e)),
    };
    if !lines_read_as(&text.records, &read) {
        return None;
    }
    match records_of(store, read) {
        Ok(entries) => Some(Ok((text.header_bytes, entries))),
        Err(e) => Some(Err(e)),
    }
}

/// Refuses record `index` of a store where its schema is not the one its receiver
/// takes.
pub fn check_schema(store: &str, index: usize, entry: &CarriedEntry, takes: &SchemaId) -> (r: Result<
    (),
    BackendError,
>)
    requires
        index < u64::MAX,
    ensures
        match r {
            Ok(()) => entry.schema@ == takes@,
            Err(e) => entry.schema@ != takes@ && is_unreadable(
                e,
                store@,
                "record "@ + decimal((index + 1) as nat) + ": it carries a "@ + id_text(
                    entry.schema@,
                ) + ", and this inbox takes "@ + id_text(takes@),
            ),
        },
{
    if entry.schema.equals(takes) {
        return Ok(());
    }
    let at = decimal_of(index as u64 + 1);
    let carried = entry.schema.to_text();
    let wanted = takes.to_text();
    Err(
        unreadable(
            store,
            cat6(
                "record ",
                at.as_str(),
                ": it carries a ",
                carried.as_str(),
                ", and this inbox takes ",
                wanted.as_str(),
            ),
        ),
    )
}

/// The refusal of record `index` of a store whose message does not read as the one
/// its receiver takes.
pub fn not_a_message(store: &str, index: usize, takes: &SchemaId, failure: &str) -> (r: BackendError)
    requires
        index < u64::MAX,
    ensures
        is_unreadable(
            r,
            store@,
            "record "@ + decimal((index + 1) as nat) + ": it is not a "@ + id_text(takes@)
                + ": "@ + failure@,
        ),
{
    let at = decimal_of(index as u64 + 1);
    let wanted = takes.to_text();
    unreadable(
        store,
        cat6("record ", at.as_str(), ": it is not a ", wanted.as_str(), ": ", failure),
    )
}

/// What a store's header line is written as.
pub open spec fn header_json() -> JsonView {
    JsonView::Object(
        seq![
            ("schema_version"@, JsonView::Number(NumberView::Int(CARRY_SCHEMA_VERSION as int))),
            ("kind"@, JsonView::Str(STORE_KIND@)),
        ],
    )
}

/// What a record is written as.
pub open spec fn entry_json(entry: CarriedEntry) -> JsonView {
    JsonView::Object(
        seq![
            ("ts"@, JsonView::Str(entry.ts@)),
            ("schema"@, JsonView::Str(id_text(entry.schema@))),
            ("message"@, entry.message@),
        ],
    )
}

/// A store's header line.
pub fn header_line() -> (r: String)
    ensures
        r@ == text_of(header_json()) + "\n"@,
{
    broadcast use group_json_views;

    let mut fields: Vec<(String, Json)> = Vec::new();
    proof {
        assert(fields_view(fields@) =~= Seq::<(Seq<char>, JsonView)>::empty());
    }
    put(&mut fields, "schema_version", Json::whole(CARRY_SCHEMA_VERSION as u64));
    put(&mut fields, "kind", Json::text(STORE_KIND));
    proof {
        assert(fields_view(fields@) =~= header_json()->Object_0);
    }
    let text = Json::Object(fields).render();
    cat2(text.as_str(), "\n")
}

impl CarriedEntry {
    /// A record's line.
    pub fn line(&self) -> (r: String)
        ensures
            r@ == text_of(entry_json(*self)) + "\n"@,
    {
        broadcast use group_json_views;

        let mut fields: Vec<(String, Json)> = Vec::new();
        proof {
            assert(fields_view(fields@) =~= Seq::<(Seq<char>, JsonView)>::empty());
        }
        let schema = self.schema.to_text();
        put(&mut fields, "ts", Json::text(self.ts.as_str()));
        put(&mut fields, "schema", Json::text(schema.as_str()));
        put(&mut fields, "message", self.message.copied());
        proof {
            assert(fields_view(fields@) =~= entry_json(*self)->Object_0);
        }
        let text = Json::Object(fields).render();
        cat2(text.as_str(), "\n")
    }
}

// ---------------------------------------------------------------------------
// Draining a store into an inbox.
// ---------------------------------------------------------------------------

impl<M, D> Inbox<M, D> {
    /// Drains what a store held into this inbox, oldest first, and says how many
    /// messages it held; the caller empties the store in the same step. Refused
    /// where the inbox is closed, and nothing is taken.
    pub fn adopt_carried(&mut self, messages: Vec<M>) -> (r: Result<usize, Undelivered>)
        requires
            old(self)@.next + messages@.len() <= u64::MAX,
        ensures
            match r {
                Ok(count) => {
                    &&& old(self)@.closed is None
                    &&& count == messages@.len()
                    &&& final(self)@ == (InboxView {
                        queue: old(self)@.queue + queued_all(messages@, old(self)@.next),
                        next: (old(self)@.next + messages@.len()) as u64,
                        ..old(self)@
                    })
                },
                Err(Undelivered::Closed(closed)) => {
                    &&& old(self)@.closed == Some(closed.reason@)
                    &&& final(self)@ == old(self)@
                },
                Err(_) => false,
            },
    {
        match self.offer_all(messages) {
            Ok(count) => Ok(count),
            Err(closed) => Err(Undelivered::Closed(closed)),
        }
    }
}

} // verus!
