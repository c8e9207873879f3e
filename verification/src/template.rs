//! Values with places to fill in: text with `{frame.path}` and `{reply.path}`
//! in it, and the mappings an answer to a question is put together from.

use crate::json::{Json, JsonView, fields_view, group_json_views, items_view, text_of};
use crate::predicate::at_path;
use crate::text::{
    cat3, chars_of, find_char, first_at, first_of, same_text, split, split_on, string_of, texts,
};
use vstd::prelude::*;

verus! {

// ---------------------------------------------------------------------------
// Paths.
// ---------------------------------------------------------------------------

/// Whether every part of a dotted path is a key.
pub open spec fn is_dotted(path: Seq<char>) -> bool {
    forall|i: int|
        0 <= i < split_on(path, '.').len() ==> (#[trigger] split_on(path, '.')[i]).len() > 0
}

/// The value at a dotted path; nothing for a path with an empty part.
pub open spec fn dotted(value: JsonView, path: Seq<char>) -> Option<JsonView> {
    if is_dotted(path) {
        at_path(value, split_on(path, '.'))
    } else {
        None
    }
}

/// Whether every part of a dotted path is a key.
pub fn valid_path(path: &str) -> (r: bool)
    ensures
        r == is_dotted(path@),
{
    let parts = split(path, '.');
    let ghost all = split_on(path@, '.');
    let mut i: usize = 0;
    while i < parts.len()
        invariant
            i <= parts@.len(),
            all == texts(parts@),
            all == split_on(path@, '.'),
            forall|k: int| 0 <= k < i ==> (#[trigger] all[k]).len() > 0,
        decreases parts@.len() - i,
    {
        if parts[i].as_str().is_empty() {
            proof {
                assert(all[i as int].len() == 0);
            }
            return false;
        }
        proof {
            assert(all[i as int] == parts@[i as int]@);
        }
        i += 1;
    }
    true
}

/// The value at a dotted path.
pub fn path<'a>(root: &'a Json, at: &str) -> (r: Option<&'a Json>)
    ensures
        match r {
            Some(value) => dotted(root@, at@) == Some(value@),
            None => dotted(root@, at@) is None,
        },
{
    if !valid_path(at) {
        return None;
    }
    let parts = split(at, '.');
    let ghost steps = split_on(at@, '.');
    let mut value = root;
    let mut i: usize = 0;
    proof {
        assert(steps.skip(0) =~= steps);
    }
    while i < parts.len()
        invariant
            i <= parts@.len(),
            steps == texts(parts@),
            at_path(root@, steps) == at_path(value@, steps.skip(i as int)),
            dotted(root@, at@) == at_path(root@, steps),
        decreases parts@.len() - i,
    {
        proof {
            assert(steps.skip(i as int).skip(1) =~= steps.skip(i + 1));
            assert(steps.skip(i as int)[0] == parts@[i as int]@);
        }
        match value.get(parts[i].as_str()) {
            None => {
                return None;
            },
            Some(inner) => {
                value = inner;
            },
        }
        i += 1;
    }
    Some(value)
}

// ---------------------------------------------------------------------------
// Templates.
// ---------------------------------------------------------------------------

/// A part of a template: a character, or a place to fill in from the frame or
/// the reply.
pub enum PieceView {
    Char(char),
    Field { reply: bool, path: Seq<char> },
}

/// A part of a template.
#[derive(Debug)]
pub enum Piece {
    /// A character.
    Char(char),
    /// A place to fill in.
    Field {
        /// Whether from the reply, rather than the frame.
        reply: bool,
        /// The path of what fills it.
        path: String,
    },
}

impl View for Piece {
    type V = PieceView;

    open spec fn view(&self) -> PieceView {
        match self {
            Piece::Char(c) => PieceView::Char(*c),
            Piece::Field { reply, path } => PieceView::Field { reply: *reply, path: path@ },
        }
    }
}

/// What several parts are.
pub open spec fn pieces_view(pieces: Seq<Piece>) -> Seq<PieceView> {
    Seq::new(pieces.len(), |i: int| pieces[i]@)
}

/// What the text between braces is: a root and a path, or what is wrong.
pub open spec fn placeholder_of(text: Seq<char>) -> Result<PieceView, Seq<char>> {
    match first_at(text, '.') {
        None => Err("placeholder `{"@ + text + "}` has no root and path"@),
        Some(dot) => {
            let root = text.take(dot);
            let path = text.skip(dot + 1);
            if (root == "frame"@ || root == "reply"@) && is_dotted(path) {
                Ok(PieceView::Field { reply: root == "reply"@, path })
            } else {
                Err("placeholder `{"@ + text + "}` is not a frame or reply path"@)
            }
        },
    }
}

/// Where the next `}` from `from` on is, or the end.
pub open spec fn closing_at(text: Seq<char>, from: int) -> int
    decreases text.len() - from,
{
    if from >= text.len() {
        text.len() as int
    } else if text[from] == '}' {
        from
    } else {
        closing_at(text, from + 1)
    }
}

/// Whether `text` has two of one brace at `at`: the brace itself, escaped.
pub open spec fn doubled(text: Seq<char>, at: int, brace: char) -> bool {
    at + 1 < text.len() && text[at] == brace && text[at + 1] == brace
}

/// The parts of `text` from `from` on, or what is wrong with the first that is
/// none.
pub open spec fn pieces_from(text: Seq<char>, from: int) -> Result<Seq<PieceView>, Seq<char>>
    decreases text.len() - from,
    when 0 <= from
    via pieces_from_terminates
{
    if from >= text.len() {
        Ok(Seq::empty())
    } else if doubled(text, from, '{') {
        preceded(PieceView::Char('{'), pieces_from(text, from + 2))
    } else if doubled(text, from, '}') {
        preceded(PieceView::Char('}'), pieces_from(text, from + 2))
    } else if text[from] == '{' {
        let end = closing_at(text, from + 1);
        if end >= text.len() {
            Err("an opening `{` has no closing `}`"@)
        } else {
            match placeholder_of(text.subrange(from + 1, end)) {
                Err(why) => Err(why),
                Ok(piece) => preceded(piece, pieces_from(text, end + 1)),
            }
        }
    } else if text[from] == '}' {
        Err("an unescaped `}` has no opening `{`"@)
    } else {
        preceded(PieceView::Char(text[from]), pieces_from(text, from + 1))
    }
}

#[via_fn]
proof fn pieces_from_terminates(text: Seq<char>, from: int) {
    lemma_closing_at(text, from + 1);
}

pub proof fn lemma_closing_at(text: Seq<char>, from: int)
    ensures
        from <= text.len() ==> from <= closing_at(text, from),
        closing_at(text, from) <= text.len(),
        0 <= from && closing_at(text, from) < text.len() ==> text[closing_at(text, from)] == '}',
    decreases text.len() - from,
{
    if from < text.len() && text[from] != '}' {
        lemma_closing_at(text, from + 1);
    }
}

pub proof fn lemma_closing_is(text: Seq<char>, from: int, end: int)
    requires
        0 <= from <= end <= text.len(),
        end < text.len() ==> text[end] == '}',
        forall|i: int| from <= i < end ==> #[trigger] text[i] != '}',
    ensures
        closing_at(text, from) == end,
    decreases end - from,
{
    if from < end {
        lemma_closing_is(text, from + 1, end);
    }
}

/// A part before others.
pub open spec fn preceded(
    first: PieceView,
    rest: Result<Seq<PieceView>, Seq<char>>,
) -> Result<Seq<PieceView>, Seq<char>> {
    match rest {
        Ok(rest) => Ok(seq![first] + rest),
        Err(why) => Err(why),
    }
}

/// The parts of a template, or what is wrong with it.
pub open spec fn template(text: Seq<char>) -> Result<Seq<PieceView>, Seq<char>> {
    pieces_from(text, 0)
}

/// What the text between braces is.
fn parse_placeholder(text: &str) -> (r: Result<Piece, String>)
    ensures
        match r {
            Ok(piece) => placeholder_of(text@) is Ok && placeholder_of(text@)->Ok_0 == piece@,
            Err(why) => placeholder_of(text@) is Err && placeholder_of(text@)->Err_0 == why@,
        },
{
    let chars = chars_of(text);
    let dot = match first_of(&chars, '.') {
        Some(dot) => dot,
        None => {
            return Err(cat3("placeholder `{", text, "}` has no root and path"));
        },
    };
    let root = string_of(&chars, 0, dot);
    let len: usize = chars.len();
    let field = string_of(&chars, dot + 1, len);
    proof {
        assert(root@ =~= text@.take(dot as int));
        assert(field@ =~= text@.skip(dot + 1));
    }
    let is_reply = same_text(root.as_str(), "reply");
    if (same_text(root.as_str(), "frame") || is_reply) && valid_path(field.as_str()) {
        Ok(Piece::Field { reply: is_reply, path: field })
    } else {
        Err(cat3("placeholder `{", text, "}` is not a frame or reply path"))
    }
}

/// Parts followed by what `rest` says.
spec fn followed(
    done: Seq<PieceView>,
    rest: Result<Seq<PieceView>, Seq<char>>,
) -> Result<Seq<PieceView>, Seq<char>> {
    match rest {
        Ok(rest) => Ok(done + rest),
        Err(why) => Err(why),
    }
}

proof fn lemma_followed(
    done: Seq<PieceView>,
    first: PieceView,
    rest: Result<Seq<PieceView>, Seq<char>>,
)
    ensures
        followed(done, preceded(first, rest)) == followed(done.push(first), rest),
{
    if let Ok(rest) = rest {
        assert(done + (seq![first] + rest) =~= done.push(first) + rest);
    }
}

/// A character as a part.
fn plain_piece(c: char) -> (r: Piece)
    ensures
        r@ == PieceView::Char(c),
{
    Piece::Char(c)
}

/// The parts of a template.
pub fn parse_template(text: &str) -> (r: Result<Vec<Piece>, String>)
    ensures
        match r {
            Ok(pieces) => template(text@) is Ok && template(text@)->Ok_0 == pieces_view(pieces@),
            Err(why) => template(text@) is Err && template(text@)->Err_0 == why@,
        },
{
    let chars = chars_of(text);
    let len: usize = chars.len();
    let mut out: Vec<Piece> = Vec::new();
    let mut i: usize = 0;
    proof {
        assert(pieces_view(out@) =~= Seq::<PieceView>::empty());
        if let Ok(rest) = pieces_from(text@, 0) {
            assert(Seq::<PieceView>::empty() + rest =~= rest);
        }
    }
    while i < len
        invariant
            i <= len,
            len == chars@.len(),
            chars@ == text@,
            template(text@) == followed(pieces_view(out@), pieces_from(text@, i as int)),
        decreases len - i,
    {
        let c = chars[i];
        let ghost done = pieces_view(out@);
        let twice = i + 1 < len && chars[i + 1] == c;
        if (c == '{' || c == '}') && twice {
            out.push(Piece::Char(c));
            proof {
                assert(pieces_view(out@) =~= done.push(PieceView::Char(c)));
                lemma_followed(done, PieceView::Char(c), pieces_from(text@, i + 2));
            }
            i += 2;
        } else if c == '{' {
            let end = match find_char(&chars, '}', i + 1) {
                Some(end) => end,
                None => {
                    proof {
                        lemma_closing_is(text@, i + 1, len as int);
                    }
                    return Err("an opening `{` has no closing `}`".to_owned());
                },
            };
            proof {
                lemma_closing_is(text@, i + 1, end as int);
            }
            let inner = string_of(&chars, i + 1, end);
            match parse_placeholder(inner.as_str()) {
                Err(why) => {
                    return Err(why);
                },
                Ok(piece) => {
                    out.push(piece);
                    proof {
                        assert(pieces_view(out@) =~= done.push(piece@));
                        lemma_followed(done, piece@, pieces_from(text@, end + 1));
                    }
                },
            }
            i = end + 1;
        } else if c == '}' {
            return Err("an unescaped `}` has no opening `{`".to_owned());
        } else {
            let piece = plain_piece(c);
            out.push(piece);
            proof {
                assert(pieces_view(out@) =~= done.push(piece@));
                lemma_followed(done, PieceView::Char(c), pieces_from(text@, i + 1));
            }
            i += 1;
        }
    }
    proof {
        assert(pieces_view(out@) + Seq::<PieceView>::empty() =~= pieces_view(out@));
    }
    Ok(out)
}

/// What fills a place: the value at its path in the frame or the reply.
pub open spec fn filler(
    piece: PieceView,
    frame: JsonView,
    reply: Option<JsonView>,
) -> Option<JsonView> {
    match piece {
        PieceView::Char(_) => None,
        PieceView::Field { reply: from_reply, path } => if from_reply {
            match reply {
                Some(reply) => dotted(reply, path),
                None => None,
            }
        } else {
            dotted(frame, path)
        },
    }
}

/// A value as text within text: itself where it is text, as it is written where
/// it is not, and nothing where it is not there.
pub open spec fn inline_text(value: Option<JsonView>) -> Seq<char> {
    match value {
        None => Seq::empty(),
        Some(JsonView::Str(text)) => text,
        Some(other) => text_of(other),
    }
}

/// A part filled in.
pub open spec fn filled_piece(
    piece: PieceView,
    frame: JsonView,
    reply: Option<JsonView>,
) -> Seq<char> {
    match piece {
        PieceView::Char(c) => seq![c],
        _ => inline_text(filler(piece, frame, reply)),
    }
}

/// Parts filled in, one after another.
pub open spec fn filled(
    pieces: Seq<PieceView>,
    frame: JsonView,
    reply: Option<JsonView>,
) -> Seq<char>
    decreases pieces.len(),
{
    if pieces.len() == 0 {
        Seq::empty()
    } else {
        filled(pieces.drop_last(), frame, reply) + filled_piece(pieces.last(), frame, reply)
    }
}

/// What a template is filled in to: the value itself where the template is one
/// place, `""` where that is not there, and text otherwise.
pub open spec fn rendered_text(
    text: Seq<char>,
    frame: JsonView,
    reply: Option<JsonView>,
) -> Result<JsonView, Seq<char>> {
    match template(text) {
        Err(why) => Err(why),
        Ok(pieces) => if pieces.len() == 1 && pieces[0] is Field {
            match filler(pieces[0], frame, reply) {
                Some(value) => Ok(value),
                None => Ok(JsonView::Str(Seq::empty())),
            }
        } else {
            Ok(JsonView::Str(filled(pieces, frame, reply)))
        },
    }
}

/// An optional value, by reference.
pub open spec fn reply_view(reply: Option<&Json>) -> Option<JsonView> {
    match reply {
        Some(reply) => Some(reply@),
        None => None,
    }
}

/// What fills a place.
fn filler_of<'a>(piece: &Piece, frame: &'a Json, reply: Option<&'a Json>) -> (r: Option<&'a Json>)
    ensures
        match r {
            Some(value) => filler(piece@, frame@, reply_view(reply)) == Some(value@),
            None => filler(piece@, frame@, reply_view(reply)) is None,
        },
{
    match piece {
        Piece::Char(_) => None,
        Piece::Field { reply: from_reply, path: at } => if *from_reply {
            match reply {
                Some(reply) => path(reply, at.as_str()),
                None => None,
            }
        } else {
            path(frame, at.as_str())
        },
    }
}

/// What a template is filled in to.
pub fn render_string(text: &str, frame: &Json, reply: Option<&Json>) -> (r: Result<Json, String>)
    ensures
        ({
            let rendered = rendered_text(text@, frame@, reply_view(reply));
            match r {
                Ok(value) => rendered is Ok && rendered->Ok_0 == value@,
                Err(why) => rendered is Err && rendered->Err_0 == why@,
            }
        }),
{
    let pieces = match parse_template(text) {
        Ok(pieces) => pieces,
        Err(why) => {
            return Err(why);
        },
    };
    let ghost all = pieces_view(pieces@);
    proof {
        assert(all.len() == pieces@.len());
    }
    if pieces.len() == 1 {
        proof {
            assert(all[0] == pieces@[0]@);
        }
        if let Piece::Field { .. } = &pieces[0] {
            return match filler_of(&pieces[0], frame, reply) {
                Some(value) => Ok(value.copied()),
                None => {
                    let nothing = String::new();
                    proof {
                        assert(nothing@ =~= Seq::<char>::empty());
                    }
                    Ok(Json::Str(nothing))
                },
            };
        }
    }
    let mut out = String::new();
    let mut i: usize = 0;
    proof {
        assert(all.take(0) =~= Seq::<PieceView>::empty());
    }
    while i < pieces.len()
        invariant
            i <= pieces@.len(),
            all == pieces_view(pieces@),
            out@ =~= filled(all.take(i as int), frame@, reply_view(reply)),
        decreases pieces@.len() - i,
    {
        proof {
            assert(all.take(i + 1).drop_last() =~= all.take(i as int));
            assert(all.take(i + 1).last() == pieces@[i as int]@);
        }
        match &pieces[i] {
            Piece::Char(c) => {
                out.push(*c);
            },
            Piece::Field { .. } => {
                match filler_of(&pieces[i], frame, reply) {
                    None => {},
                    Some(Json::Str(inner)) => {
                        out.append(inner.as_str());
                    },
                    Some(other) => {
                        let written = other.render();
                        out.append(written.as_str());
                    },
                }
            },
        }
        i += 1;
    }
    proof {
        assert(all.take(i as int) =~= all);
    }
    Ok(Json::Str(out))
}

/// What a value with places to fill in is filled in to: every text within it.
pub open spec fn rendered(value: JsonView, frame: JsonView, reply: Option<JsonView>) -> Result<
    JsonView,
    Seq<char>,
>
    decreases value, 0nat,
{
    match value {
        JsonView::Str(text) => rendered_text(text, frame, reply),
        JsonView::Array(items) => match rendered_items(items, frame, reply) {
            Ok(items) => Ok(JsonView::Array(items)),
            Err(why) => Err(why),
        },
        JsonView::Object(fields) => match rendered_fields(fields, frame, reply) {
            Ok(fields) => Ok(JsonView::Object(fields)),
            Err(why) => Err(why),
        },
        other => Ok(other),
    }
}

/// Items filled in, or what is wrong with the first that cannot be.
pub open spec fn rendered_items(
    items: Seq<JsonView>,
    frame: JsonView,
    reply: Option<JsonView>,
) -> Result<Seq<JsonView>, Seq<char>>
    decreases items, items.len(),
{
    if items.len() == 0 {
        Ok(Seq::empty())
    } else {
        match rendered_items(items.drop_last(), frame, reply) {
            Err(why) => Err(why),
            Ok(before) => match rendered(items.last(), frame, reply) {
                Err(why) => Err(why),
                Ok(last) => Ok(before.push(last)),
            },
        }
    }
}

/// Members filled in, or what is wrong with the first that cannot be.
pub open spec fn rendered_fields(
    fields: Seq<(Seq<char>, JsonView)>,
    frame: JsonView,
    reply: Option<JsonView>,
) -> Result<Seq<(Seq<char>, JsonView)>, Seq<char>>
    decreases fields, fields.len(),
{
    if fields.len() == 0 {
        Ok(Seq::empty())
    } else {
        match rendered_fields(fields.drop_last(), frame, reply) {
            Err(why) => Err(why),
            Ok(before) => match rendered(fields.last().1, frame, reply) {
                Err(why) => Err(why),
                Ok(last) => Ok(before.push((fields.last().0, last))),
            },
        }
    }
}

proof fn lemma_items_err(
    items: Seq<JsonView>,
    n: int,
    frame: JsonView,
    reply: Option<JsonView>,
)
    requires
        0 <= n <= items.len(),
        rendered_items(items.take(n), frame, reply) is Err,
    ensures
        rendered_items(items, frame, reply) is Err,
        rendered_items(items, frame, reply)->Err_0 == rendered_items(
            items.take(n),
            frame,
            reply,
        )->Err_0,
    decreases items.len(),
{
    if n == items.len() {
        assert(items.take(n) =~= items);
    } else {
        assert(items.drop_last().take(n) =~= items.take(n));
        lemma_items_err(items.drop_last(), n, frame, reply);
    }
}

proof fn lemma_fields_err(
    fields: Seq<(Seq<char>, JsonView)>,
    n: int,
    frame: JsonView,
    reply: Option<JsonView>,
)
    requires
        0 <= n <= fields.len(),
        rendered_fields(fields.take(n), frame, reply) is Err,
    ensures
        rendered_fields(fields, frame, reply) is Err,
        rendered_fields(fields, frame, reply)->Err_0 == rendered_fields(
            fields.take(n),
            frame,
            reply,
        )->Err_0,
    decreases fields.len(),
{
    if n == fields.len() {
        assert(fields.take(n) =~= fields);
    } else {
        assert(fields.drop_last().take(n) =~= fields.take(n));
        lemma_fields_err(fields.drop_last(), n, frame, reply);
    }
}

/// What a value with places to fill in is filled in to.
pub fn render(value: &Json, frame: &Json, reply: Option<&Json>) -> (r: Result<Json, String>)
    ensures
        ({
            let goal = rendered(value@, frame@, reply_view(reply));
            match r {
                Ok(out) => goal is Ok && goal->Ok_0 == out@,
                Err(why) => goal is Err && goal->Err_0 == why@,
            }
        }),
    decreases value,
{
    broadcast use group_json_views;

    match value {
        Json::Str(text) => render_string(text.as_str(), frame, reply),
        Json::Array(items) => {
            let ghost all = items_view(items@);
            let mut out: Vec<Json> = Vec::new();
            let mut i: usize = 0;
            proof {
                assert(all.take(0) =~= Seq::<JsonView>::empty());
                assert(items_view(out@) =~= Seq::<JsonView>::empty());
            }
            while i < items.len()
                invariant
                    *value == Json::Array(*items),
                    i <= items@.len(),
                    all == items_view(items@),
                    value@ == JsonView::Array(all),
                    rendered_items(all.take(i as int), frame@, reply_view(reply)) is Ok,
                    rendered_items(all.take(i as int), frame@, reply_view(reply))->Ok_0
                        == items_view(out@),
                decreases items@.len() - i,
            {
                let ghost before = items_view(out@);
                proof {
                    assert(decreases_to!(value->Array_0 => value->Array_0[i as int]));
                    assert(all.take(i + 1).drop_last() =~= all.take(i as int));
                    assert(all.take(i + 1).last() == items@[i as int]@);
                }
                match render(&items[i], frame, reply) {
                    Err(why) => {
                        proof {
                            lemma_items_err(all, i + 1, frame@, reply_view(reply));
                        }
                        return Err(why);
                    },
                    Ok(item) => {
                        out.push(item);
                        proof {
                            assert(items_view(out@) =~= before.push(item@));
                        }
                    },
                }
                i += 1;
            }
            proof {
                assert(all.take(i as int) =~= all);
            }
            Ok(Json::Array(out))
        },
        Json::Object(fields) => {
            let ghost all = fields_view(fields@);
            let mut out: Vec<(String, Json)> = Vec::new();
            let mut i: usize = 0;
            proof {
                assert(all.take(0) =~= Seq::<(Seq<char>, JsonView)>::empty());
                assert(fields_view(out@) =~= Seq::<(Seq<char>, JsonView)>::empty());
            }
            while i < fields.len()
                invariant
                    *value == Json::Object(*fields),
                    i <= fields@.len(),
                    all == fields_view(fields@),
                    value@ == JsonView::Object(all),
                    rendered_fields(all.take(i as int), frame@, reply_view(reply)) is Ok,
                    rendered_fields(all.take(i as int), frame@, reply_view(reply))->Ok_0
                        == fields_view(out@),
                decreases fields@.len() - i,
            {
                let ghost before = fields_view(out@);
                proof {
                    assert(decreases_to!(value->Object_0 => value->Object_0[i as int]));
                    assert(all.take(i + 1).drop_last() =~= all.take(i as int));
                    assert(all.take(i + 1).last() == (
                        fields@[i as int].0@,
                        fields@[i as int].1@,
                    ));
                }
                match render(&fields[i].1, frame, reply) {
                    Err(why) => {
                        proof {
                            lemma_fields_err(all, i + 1, frame@, reply_view(reply));
                        }
                        return Err(why);
                    },
                    Ok(item) => {
                        out.push((fields[i].0.clone(), item));
                        proof {
                            assert(fields_view(out@) =~= before.push(
                                (fields@[i as int].0@, item@),
                            ));
                        }
                    },
                }
                i += 1;
            }
            proof {
                assert(all.take(i as int) =~= all);
            }
            Ok(Json::Object(out))
        },
        _ => Ok(value.copied()),
    }
}

} // verus!
