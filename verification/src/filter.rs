//! Which events a reader or a writer takes: matchers over what an event carries.

use crate::envelope::Envelope;
use crate::event_log::{extend_fields, extended};
use crate::json::{
    Json, JsonView, copied_fields, field, fields_view, get_field, group_json_views, same,
    text_of,
};
use crate::text::{
    blank, cat2, cat3, cat4, cat5, chars_of, copied_texts, decimal, decimal_of, is_blank, join,
    joined, same_text, starts, starts_with, texts, trim, trimmed,
};
use vstd::prelude::*;

verus! {

// ---------------------------------------------------------------------------
// Globs.
// ---------------------------------------------------------------------------

/// Whether `text` is one `pattern` stands for: each `*` any run of characters,
/// none among them, and every other character itself.
pub open spec fn glob_matches(pattern: Seq<char>, text: Seq<char>) -> bool
    decreases pattern.len() + text.len(),
{
    if pattern.len() == 0 {
        text.len() == 0
    } else if pattern[0] == '*' {
        glob_matches(pattern.skip(1), text) || (text.len() > 0 && glob_matches(
            pattern,
            text.skip(1),
        ))
    } else {
        text.len() > 0 && pattern[0] == text[0] && glob_matches(pattern.skip(1), text.skip(1))
    }
}

/// Whether `pattern[a..b]` reads as `text[c..c + b - a]`, with no `*` in it.
spec fn literal(pattern: Seq<char>, a: int, b: int, text: Seq<char>, c: int) -> bool {
    &&& 0 <= a <= b <= pattern.len()
    &&& 0 <= c
    &&& c + (b - a) <= text.len()
    &&& forall|k: int|
        a <= k < b ==> #[trigger] pattern[k] != '*' && pattern[k] == text[c + (k - a)]
}

/// A run of characters that read as themselves can be passed over.
proof fn lemma_pass_literal(pattern: Seq<char>, a: int, b: int, text: Seq<char>, c: int)
    requires
        literal(pattern, a, b, text, c),
    ensures
        glob_matches(pattern.skip(a), text.skip(c)) == glob_matches(
            pattern.skip(b),
            text.skip(c + (b - a)),
        ),
    decreases b - a,
{
    if a < b {
        assert(pattern[a] != '*');
        assert(literal(pattern, a + 1, b, text, c + 1));
        lemma_pass_literal(pattern, a + 1, b, text, c + 1);
        assert(pattern.skip(a).skip(1) =~= pattern.skip(a + 1));
        assert(text.skip(c).skip(1) =~= text.skip(c + 1));
        assert(pattern.skip(a)[0] == pattern[a]);
        assert(text.skip(c)[0] == text[c]);
    }
}

/// A match of a pattern that starts with characters other than `*` reads them.
proof fn lemma_match_reads_literal(pattern: Seq<char>, a: int, b: int, text: Seq<char>, c: int)
    requires
        0 <= a <= b <= pattern.len(),
        0 <= c <= text.len(),
        forall|k: int| a <= k < b ==> #[trigger] pattern[k] != '*',
        glob_matches(pattern.skip(a), text.skip(c)),
    ensures
        literal(pattern, a, b, text, c),
    decreases b - a,
{
    if a < b {
        assert(pattern[a] != '*');
        assert(pattern.skip(a)[0] == pattern[a]);
        assert(text.skip(c).len() > 0);
        assert(text.skip(c)[0] == text[c]);
        assert(pattern.skip(a).skip(1) =~= pattern.skip(a + 1));
        assert(text.skip(c).skip(1) =~= text.skip(c + 1));
        lemma_match_reads_literal(pattern, a + 1, b, text, c + 1);
        assert forall|k: int| a <= k < b implies #[trigger] pattern[k] != '*' && pattern[k] == text[c
            + (k - a)] by {
            if k > a {
                assert(pattern[k] == text[c + 1 + (k - (a + 1))]);
            }
        }
    }
}

/// What a `*` matches from some place on, it matches from any earlier one.
proof fn lemma_star_absorbs(pattern: Seq<char>, text: Seq<char>, i: int, j: int)
    requires
        pattern.len() > 0,
        pattern[0] == '*',
        0 <= i <= j <= text.len(),
        glob_matches(pattern, text.skip(j)),
    ensures
        glob_matches(pattern, text.skip(i)),
    decreases j - i,
{
    if i < j {
        lemma_star_absorbs(pattern, text, i + 1, j);
        assert(text.skip(i).skip(1) =~= text.skip(i + 1));
    }
}

/// What a `*` stands for ends somewhere.
proof fn lemma_star_ends(pattern: Seq<char>, text: Seq<char>, i: int) -> (k: int)
    requires
        pattern.len() > 0,
        pattern[0] == '*',
        0 <= i <= text.len(),
        glob_matches(pattern, text.skip(i)),
    ensures
        i <= k <= text.len(),
        glob_matches(pattern.skip(1), text.skip(k)),
    decreases text.len() - i,
{
    if glob_matches(pattern.skip(1), text.skip(i)) {
        i
    } else {
        assert(text.skip(i).skip(1) =~= text.skip(i + 1));
        lemma_star_ends(pattern, text, i + 1)
    }
}

/// Nothing is matched by `*`s alone, and by no other pattern.
proof fn lemma_match_nothing(pattern: Seq<char>)
    ensures
        glob_matches(pattern, Seq::<char>::empty()) == forall|k: int|
            0 <= k < pattern.len() ==> #[trigger] pattern[k] == '*',
    decreases pattern.len(),
{
    if pattern.len() > 0 {
        let rest = pattern.skip(1);
        lemma_match_nothing(rest);
        if glob_matches(pattern, Seq::<char>::empty()) {
            assert forall|k: int| 0 <= k < pattern.len() implies #[trigger] pattern[k] == '*' by {
                if k > 0 {
                    assert(rest[k - 1] == '*');
                }
            }
        }
        if forall|k: int| 0 <= k < pattern.len() ==> #[trigger] pattern[k] == '*' {
            assert forall|k: int| 0 <= k < rest.len() implies #[trigger] rest[k] == '*' by {
                assert(pattern[k + 1] == '*');
            }
            assert(pattern[0] == '*');
        }
    }
}

/// Going on from a `*` to the next one loses no match: the run between them is
/// best read where it first can be.
proof fn lemma_next_star(
    pattern: Seq<char>,
    text: Seq<char>,
    star: int,
    resume: int,
    p: int,
    t: int,
)
    requires
        0 <= star < p < pattern.len(),
        pattern[star] == '*',
        pattern[p] == '*',
        0 <= resume <= text.len(),
        t == resume + (p - (star + 1)),
        literal(pattern, star + 1, p, text, resume),
    ensures
        glob_matches(pattern.skip(star), text.skip(resume)) == glob_matches(
            pattern.skip(p),
            text.skip(t),
        ),
{
    lemma_pass_literal(pattern, star + 1, p, text, resume);
    assert(pattern.skip(star).skip(1) =~= pattern.skip(star + 1));
    if glob_matches(pattern.skip(star), text.skip(resume)) {
        let k = lemma_star_ends(pattern.skip(star), text, resume);
        lemma_match_reads_literal(pattern, star + 1, p, text, k);
        lemma_pass_literal(pattern, star + 1, p, text, k);
        lemma_star_absorbs(pattern.skip(p), text, t, k + (p - (star + 1)));
    }
}

/// Once the run after a `*` cannot be read where it is tried, it is read later
/// or not at all.
proof fn lemma_resume_later(
    pattern: Seq<char>,
    text: Seq<char>,
    star: int,
    resume: int,
    p: int,
    t: int,
)
    requires
        0 <= star < p <= pattern.len(),
        pattern[star] == '*',
        0 <= resume <= t < text.len(),
        t == resume + (p - (star + 1)),
        literal(pattern, star + 1, p, text, resume),
        p < pattern.len() ==> pattern[p] != '*' && pattern[p] != text[t],
    ensures
        glob_matches(pattern.skip(star), text.skip(resume)) == glob_matches(
            pattern.skip(star),
            text.skip(resume + 1),
        ),
{
    lemma_pass_literal(pattern, star + 1, p, text, resume);
    assert(pattern.skip(star).skip(1) =~= pattern.skip(star + 1));
    assert(text.skip(resume).skip(1) =~= text.skip(resume + 1));
    assert(text.skip(t)[0] == text[t]);
    if p < pattern.len() {
        assert(pattern.skip(p)[0] == pattern[p]);
    }
    assert(!glob_matches(pattern.skip(p), text.skip(t)));
}

/// At the end of the text, what is left of the pattern decides.
proof fn lemma_at_end(pattern: Seq<char>, text: Seq<char>, star: int, resume: int, p: int)
    requires
        0 <= star < p <= pattern.len(),
        pattern[star] == '*',
        0 <= resume <= text.len(),
        text.len() == resume + (p - (star + 1)),
        literal(pattern, star + 1, p, text, resume),
    ensures
        glob_matches(pattern.skip(star), text.skip(resume)) == glob_matches(
            pattern.skip(p),
            text.skip(text.len() as int),
        ),
{
    lemma_pass_literal(pattern, star + 1, p, text, resume);
    assert(pattern.skip(star).skip(1) =~= pattern.skip(star + 1));
    if glob_matches(pattern.skip(star), text.skip(resume)) {
        let k = lemma_star_ends(pattern.skip(star), text, resume);
        lemma_match_reads_literal(pattern, star + 1, p, text, k);
        assert(k == resume);
    }
}

/// Whether `text` is one `pattern` stands for.
pub fn glob(pattern: &str, text: &str) -> (r: bool)
    ensures
        r == glob_matches(pattern@, text@),
{
    let pat = chars_of(pattern);
    let txt = chars_of(text);
    let mut p: usize = 0;
    let mut t: usize = 0;
    let mut star: Option<usize> = None;
    let mut resume: usize = 0;
    proof {
        assert(pat@.skip(0) =~= pat@);
        assert(txt@.skip(0) =~= txt@);
    }
    while t < txt.len()
        invariant
            pat@ == pattern@,
            txt@ == text@,
            p <= pat@.len(),
            resume <= t <= txt@.len(),
            match star {
                Some(s) => {
                    &&& s < p
                    &&& pat@[s as int] == '*'
                    &&& t == resume + (p - (s + 1))
                    &&& literal(pat@, s + 1, p as int, txt@, resume as int)
                    &&& glob_matches(pattern@, text@) == glob_matches(
                        pat@.skip(s as int),
                        txt@.skip(resume as int),
                    )
                },
                None => {
                    &&& resume == 0
                    &&& glob_matches(pattern@, text@) == glob_matches(
                        pat@.skip(p as int),
                        txt@.skip(t as int),
                    )
                },
            },
        decreases
            txt@.len() - resume,
            pat@.len() - (match star {
                Some(s) => s as int,
                None => -1,
            }),
            txt@.len() - t,
    {
        if p < pat.len() && pat[p] == '*' {
            proof {
                if let Some(s) = star {
                    lemma_next_star(pat@, txt@, s as int, resume as int, p as int, t as int);
                }
            }
            star = Some(p);
            resume = t;
            p += 1;
        } else if p < pat.len() && pat[p] == txt[t] {
            proof {
                assert(pat@.skip(p as int).skip(1) =~= pat@.skip(p + 1));
                assert(txt@.skip(t as int).skip(1) =~= txt@.skip(t + 1));
                if let Some(s) = star {
                    assert forall|k: int| s + 1 <= k < p + 1 implies #[trigger] pat@[k] != '*'
                        && pat@[k] == txt@[resume + (k - (s + 1))] by {
                        if k == p {
                            assert(pat@[k] == txt@[t as int]);
                        }
                    }
                }
            }
            p += 1;
            t += 1;
        } else if let Some(s) = star {
            proof {
                lemma_resume_later(pat@, txt@, s as int, resume as int, p as int, t as int);
            }
            p = s + 1;
            resume += 1;
            t = resume;
        } else {
            proof {
                assert(txt@.skip(t as int)[0] == txt@[t as int]);
                if p < pat@.len() {
                    assert(pat@.skip(p as int)[0] == pat@[p as int]);
                }
            }
            return false;
        }
    }
    let ghost rest = pat@.skip(p as int);
    proof {
        if let Some(s) = star {
            lemma_at_end(pat@, txt@, s as int, resume as int, p as int);
        }
        assert(txt@.skip(t as int) =~= Seq::<char>::empty());
        lemma_match_nothing(rest);
        assert(glob_matches(pattern@, text@) == glob_matches(rest, Seq::<char>::empty()));
    }
    let mut i: usize = p;
    while i < pat.len()
        invariant
            p <= i <= pat@.len(),
            rest == pat@.skip(p as int),
            glob_matches(pattern@, text@) == forall|k: int|
                0 <= k < rest.len() ==> #[trigger] rest[k] == '*',
            forall|k: int| 0 <= k < i - p ==> #[trigger] rest[k] == '*',
        decreases pat@.len() - i,
    {
        if pat[i] != '*' {
            proof {
                assert(rest[i - p] == pat@[i as int]);
            }
            return false;
        }
        proof {
            assert(rest[i - p] == pat@[i as int]);
        }
        i += 1;
    }
    true
}

/// A pattern with no `*` stands for itself alone.
pub proof fn plain_pattern_matches_itself(pattern: Seq<char>, text: Seq<char>)
    requires
        !pattern.contains('*'),
    ensures
        glob_matches(pattern, text) <==> pattern == text,
    decreases pattern.len(),
{
    if pattern.len() == 0 {
        if text.len() == 0 {
            assert(pattern =~= text);
        }
    } else {
        assert(pattern[0] != '*');
        if text.len() > 0 && pattern[0] == text[0] {
            let rest = pattern.skip(1);
            if rest.contains('*') {
                let k = choose|k: int| 0 <= k < rest.len() && rest[k] == '*';
                assert(pattern[k + 1] == '*');
            }
            plain_pattern_matches_itself(rest, text.skip(1));
            if rest == text.skip(1) {
                assert(pattern =~= seq![pattern[0]] + rest);
                assert(text =~= seq![text[0]] + text.skip(1));
            }
        }
    }
}

/// A `*` alone stands for every text.
pub proof fn star_matches_everything(text: Seq<char>)
    ensures
        glob_matches(seq!['*'], text),
    decreases text.len(),
{
    reveal_with_fuel(glob_matches, 2);
    let star = seq!['*'];
    assert(star.skip(1) =~= Seq::<char>::empty());
    if text.len() > 0 {
        star_matches_everything(text.skip(1));
    } else {
        assert(text =~= Seq::<char>::empty());
    }
}

// ---------------------------------------------------------------------------
// Matchers.
// ---------------------------------------------------------------------------

/// What one event must be, each part unasked where absent.
#[derive(Debug)]
pub struct Matcher {
    /// The event's source, exactly.
    pub source: Option<String>,
    /// A glob over the event's kind.
    pub kind: Option<String>,
    /// What the event's dimensions and labels carry, exactly.
    pub fields: Vec<(String, Json)>,
}

/// What a matcher asks.
pub struct MatcherView {
    pub source: Option<Seq<char>>,
    pub kind: Option<Seq<char>>,
    pub fields: Seq<(Seq<char>, JsonView)>,
}

/// An optional text.
pub open spec fn text_view(text: Option<String>) -> Option<Seq<char>> {
    match text {
        Some(text) => Some(text@),
        None => None,
    }
}

impl View for Matcher {
    type V = MatcherView;

    open spec fn view(&self) -> MatcherView {
        MatcherView {
            source: text_view(self.source),
            kind: text_view(self.kind),
            fields: fields_view(self.fields@),
        }
    }
}

/// Whether what is carried answers every field asked.
pub open spec fn carries_all(
    asked: Seq<(Seq<char>, JsonView)>,
    carried: Seq<(Seq<char>, JsonView)>,
) -> bool {
    forall|i: int|
        0 <= i < asked.len() ==> match field(carried, (#[trigger] asked[i]).0) {
            Some(value) => same(value, asked[i].1),
            None => false,
        }
}

/// Whether an event is one a matcher asks for.
pub open spec fn matcher_holds(
    matcher: MatcherView,
    source: Seq<char>,
    kind: Seq<char>,
    carried: Seq<(Seq<char>, JsonView)>,
) -> bool {
    &&& matcher.source is Some ==> matcher.source->0 == source
    &&& matcher.kind is Some ==> glob_matches(matcher.kind->0, kind)
    &&& carries_all(matcher.fields, carried)
}

/// Whether a value asked for is one nothing carries: blank text, or `null`.
pub open spec fn is_empty_value(value: JsonView) -> bool {
    match value {
        JsonView::Str(text) => is_blank(text),
        JsonView::Null => true,
        _ => false,
    }
}

/// What a matcher asks by value, in order.
pub open spec fn asked_of(matcher: MatcherView) -> Seq<(Seq<char>, JsonView)> {
    match matcher.kind {
        Some(kind) => seq![("kind"@, JsonView::Str(kind))] + matcher.fields,
        None => matcher.fields,
    }
}

/// The refusal of a field asked for by an empty value.
pub open spec fn empty_field_words(field: Seq<char>) -> Seq<char> {
    "`"@ + field + "` is empty, and nothing on the stream carries an empty "@ + field
        + " — omit the field to leave it unasked"@
}

/// What is wrong with the first of `asked` nothing carries.
pub open spec fn first_empty(asked: Seq<(Seq<char>, JsonView)>) -> Option<Seq<char>>
    decreases asked.len(),
{
    if asked.len() == 0 {
        None
    } else if is_empty_value(asked[0].1) {
        Some(empty_field_words(asked[0].0))
    } else {
        first_empty(asked.skip(1))
    }
}

/// What is wrong with a matcher: a field no event carries, or no field at all.
/// `keys` are the names a matcher may ask by, beside `source` and `kind`.
pub open spec fn matcher_fault(matcher: MatcherView, keys: Seq<Seq<char>>) -> Option<Seq<char>> {
    let asked = asked_of(matcher);
    if first_empty(asked) is Some {
        first_empty(asked)
    } else if matcher.source is None && asked.len() == 0 {
        Some(
            "a matcher naming no field matches every event — name at least one of `"@ + joined(
                seq!["source"@, "kind"@] + keys,
                "`, `"@,
            ) + "`"@,
        )
    } else {
        None
    }
}

/// A matcher as it is written.
pub open spec fn matcher_json(matcher: MatcherView) -> JsonView {
    let none = Seq::<(Seq<char>, JsonView)>::empty();
    JsonView::Object(
        (match matcher.source {
            Some(source) => seq![("source"@, JsonView::Str(source))],
            None => none,
        }) + asked_of(matcher),
    )
}

impl Matcher {
    /// A matcher that asks nothing.
    pub fn new() -> (r: Self)
        ensures
            r@ == (MatcherView { source: None, kind: None, fields: Seq::empty() }),
    {
        let r = Matcher { source: None, kind: None, fields: Vec::new() };
        proof {
            assert(r@.fields =~= Seq::<(Seq<char>, JsonView)>::empty());
        }
        r
    }

    /// The same matcher, asking for a source.
    pub fn source(self, source: &str) -> (r: Self)
        ensures
            r@ == (MatcherView { source: Some(source@), ..self@ }),
    {
        Matcher { source: Some(source.to_owned()), kind: self.kind, fields: self.fields }
    }

    /// The same matcher, asking for a kind by a glob.
    pub fn kind(self, glob: &str) -> (r: Self)
        ensures
            r@ == (MatcherView { kind: Some(glob@), ..self@ }),
    {
        Matcher { source: self.source, kind: Some(glob.to_owned()), fields: self.fields }
    }

    /// The same matcher, asking for what an event carries.
    pub fn fields(self, fields: Vec<(String, Json)>) -> (r: Self)
        ensures
            r@ == (MatcherView { fields: fields_view(fields@), ..self@ }),
    {
        Matcher { source: self.source, kind: self.kind, fields }
    }

    /// Whether an event is one this asks for.
    pub fn holds(&self, source: &str, kind: &str, carried: &Vec<(String, Json)>) -> (r: bool)
        ensures
            r == matcher_holds(self@, source@, kind@, fields_view(carried@)),
    {
        if let Some(named) = &self.source {
            if !same_text(named.as_str(), source) {
                return false;
            }
        }
        if let Some(pattern) = &self.kind {
            if !glob(pattern.as_str(), kind) {
                return false;
            }
        }
        let ghost asked = fields_view(self.fields@);
        let mut i: usize = 0;
        while i < self.fields.len()
            invariant
                i <= self.fields@.len(),
                asked == fields_view(self.fields@),
                forall|k: int|
                    0 <= k < i ==> match field(fields_view(carried@), (#[trigger] asked[k]).0) {
                        Some(value) => same(value, asked[k].1),
                        None => false,
                    },
            decreases self.fields@.len() - i,
        {
            proof {
                assert(asked[i as int] == (
                    self.fields@[i as int].0@,
                    self.fields@[i as int].1@,
                ));
            }
            match get_field(carried, self.fields[i].0.as_str()) {
                None => {
                    return false;
                },
                Some(value) => {
                    if !value.equals(&self.fields[i].1) {
                        return false;
                    }
                },
            }
            i += 1;
        }
        true
    }

    /// What this asks by value, in order.
    fn asked(&self) -> (r: Vec<(String, Json)>)
        ensures
            fields_view(r@) == asked_of(self@),
    {
        let mut out: Vec<(String, Json)> = Vec::new();
        if let Some(kind) = &self.kind {
            out.push(("kind".to_owned(), Json::Str(kind.clone())));
        }
        let ghost first = fields_view(out@);
        let mut fields = copied_fields(&self.fields);
        let ghost rest = fields@;
        out.append(&mut fields);
        proof {
            assert(fields_view(out@) =~= first + fields_view(rest));
            if self.kind is Some {
                assert(first =~= seq![("kind"@, JsonView::Str(self@.kind->0))]);
            } else {
                assert(first + fields_view(rest) =~= fields_view(rest));
            }
        }
        out
    }

    /// Refuses a matcher that asks for what no event carries, or for nothing.
    pub fn check(&self, keys: &Vec<String>) -> (r: Result<(), String>)
        ensures
            match r {
                Ok(()) => matcher_fault(self@, texts(keys@)) is None,
                Err(why) => matcher_fault(self@, texts(keys@)) == Some(why@),
            },
    {
        let asked = self.asked();
        let ghost all = fields_view(asked@);
        let mut i: usize = 0;
        proof {
            assert(all.skip(0) =~= all);
        }
        while i < asked.len()
            invariant
                i <= asked@.len(),
                all == fields_view(asked@),
                all == asked_of(self@),
                first_empty(all) == first_empty(all.skip(i as int)),
            decreases asked@.len() - i,
        {
            proof {
                assert(all.skip(i as int).skip(1) =~= all.skip(i + 1));
                assert(all.skip(i as int)[0] == (asked@[i as int].0@, asked@[i as int].1@));
            }
            let empty = match &asked[i].1 {
                Json::Str(text) => blank(text.as_str()),
                Json::Null => true,
                _ => false,
            };
            if empty {
                let name = asked[i].0.as_str();
                return Err(
                    cat5(
                        "`",
                        name,
                        "` is empty, and nothing on the stream carries an empty ",
                        name,
                        " — omit the field to leave it unasked",
                    ),
                );
            }
            i += 1;
        }
        proof {
            assert(asked@.len() == all.len());
        }
        if self.source.is_none() && asked.len() == 0 {
            let mut names: Vec<String> = Vec::new();
            names.push("source".to_owned());
            names.push("kind".to_owned());
            let ghost first = texts(names@);
            let mut more = copied_texts(keys);
            names.append(&mut more);
            proof {
                assert(first =~= seq!["source"@, "kind"@]);
                assert(texts(names@) =~= seq!["source"@, "kind"@] + texts(keys@));
            }
            let listed = join(&names, "`, `");
            return Err(
                cat3(
                    "a matcher naming no field matches every event — name at least one of `",
                    listed.as_str(),
                    "`",
                ),
            );
        }
        Ok(())
    }

    /// This as it is written.
    pub fn to_json(&self) -> (r: Json)
        ensures
            r@ == matcher_json(self@),
    {
        broadcast use group_json_views;

        let mut out: Vec<(String, Json)> = Vec::new();
        if let Some(source) = &self.source {
            out.push(("source".to_owned(), Json::Str(source.clone())));
        }
        let ghost first = fields_view(out@);
        let mut asked = self.asked();
        let ghost rest = asked@;
        out.append(&mut asked);
        proof {
            assert(fields_view(out@) =~= first + fields_view(rest));
            if self.source is Some {
                assert(first =~= seq![("source"@, JsonView::Str(self@.source->0))]);
            } else {
                assert(first =~= Seq::<(Seq<char>, JsonView)>::empty());
            }
        }
        Json::Object(out)
    }
}

// ---------------------------------------------------------------------------
// Filters.
// ---------------------------------------------------------------------------

/// Which events are taken: those some matcher of `includes` asks for (all of
/// them, where there is none), less those some matcher of `exclude` asks for.
#[derive(Debug)]
pub struct Filter {
    /// What is taken.
    pub includes: Vec<Matcher>,
    /// What is left out.
    pub exclude: Vec<Matcher>,
}

/// What matchers ask.
pub open spec fn matchers_view(matchers: Seq<Matcher>) -> Seq<MatcherView> {
    Seq::new(matchers.len(), |i: int| matchers[i]@)
}

/// Whether some matcher asks for an event.
pub open spec fn any_holds(
    matchers: Seq<MatcherView>,
    source: Seq<char>,
    kind: Seq<char>,
    carried: Seq<(Seq<char>, JsonView)>,
) -> bool {
    exists|i: int|
        0 <= i < matchers.len() && matcher_holds(#[trigger] matchers[i], source, kind, carried)
}

/// Whether a filter takes an event.
pub open spec fn takes(
    includes: Seq<MatcherView>,
    exclude: Seq<MatcherView>,
    source: Seq<char>,
    kind: Seq<char>,
    carried: Seq<(Seq<char>, JsonView)>,
) -> bool {
    &&& !any_holds(exclude, source, kind, carried)
    &&& includes.len() == 0 || any_holds(includes, source, kind, carried)
}

/// Why a filter is not one.
#[derive(Debug, PartialEq, Eq)]
pub struct FilterError {
    /// What is wrong with it.
    pub why: String,
}

/// What is wrong with the first of `matchers`, from `from` on, that is not one.
pub open spec fn matchers_fault(
    list: Seq<char>,
    matchers: Seq<MatcherView>,
    keys: Seq<Seq<char>>,
    from: int,
) -> Option<Seq<char>>
    decreases matchers.len() - from,
{
    if from < 0 || from >= matchers.len() {
        None
    } else {
        match matcher_fault(matchers[from], keys) {
            Some(why) => Some(
                list + "["@ + decimal(from as nat) + "] "@ + text_of(matcher_json(matchers[from]))
                    + ": "@ + why,
            ),
            None => matchers_fault(list, matchers, keys, from + 1),
        }
    }
}

/// Whether some matcher asks for an event.
fn some_holds(
    matchers: &Vec<Matcher>,
    source: &str,
    kind: &str,
    carried: &Vec<(String, Json)>,
) -> (r: bool)
    ensures
        r == any_holds(matchers_view(matchers@), source@, kind@, fields_view(carried@)),
{
    let ghost all = matchers_view(matchers@);
    let mut i: usize = 0;
    while i < matchers.len()
        invariant
            i <= matchers@.len(),
            all == matchers_view(matchers@),
            forall|k: int|
                0 <= k < i ==> !matcher_holds(
                    #[trigger] all[k],
                    source@,
                    kind@,
                    fields_view(carried@),
                ),
        decreases matchers@.len() - i,
    {
        if matchers[i].holds(source, kind, carried) {
            proof {
                assert(matcher_holds(all[i as int], source@, kind@, fields_view(carried@)));
            }
            return true;
        }
        i += 1;
    }
    false
}

/// Refuses the first of `matchers` that is not one.
fn check_all(list: &str, matchers: &Vec<Matcher>, keys: &Vec<String>) -> (r: Result<(), String>)
    ensures
        match r {
            Ok(()) => matchers_fault(list@, matchers_view(matchers@), texts(keys@), 0) is None,
            Err(why) => matchers_fault(list@, matchers_view(matchers@), texts(keys@), 0) == Some(
                why@,
            ),
        },
{
    let ghost all = matchers_view(matchers@);
    let mut i: usize = 0;
    while i < matchers.len()
        invariant
            i <= matchers@.len(),
            all == matchers_view(matchers@),
            matchers_fault(list@, all, texts(keys@), 0) == matchers_fault(
                list@,
                all,
                texts(keys@),
                i as int,
            ),
        decreases matchers@.len() - i,
    {
        if let Err(why) = matchers[i].check(keys) {
            let at = decimal_of(i as u64);
            let written = matchers[i].to_json().render();
            let head = cat5(list, "[", at.as_str(), "] ", written.as_str());
            return Err(cat3(head.as_str(), ": ", why.as_str()));
        }
        i += 1;
    }
    Ok(())
}

/// What dimensions and labels carry together: a label under a dimension's name
/// stands in its place.
pub fn carried_of(dimensions: &Vec<(String, Json)>, labels: &Vec<(String, Json)>) -> (r: Vec<
    (String, Json),
>)
    ensures
        fields_view(r@) == extended(fields_view(dimensions@), fields_view(labels@)),
{
    let mut out = copied_fields(dimensions);
    extend_fields(&mut out, labels);
    out
}

/// What is wrong with a filter: its first matcher that is not one, of what is taken
/// and then of what is left out.
pub open spec fn filter_fault(filter: Filter, keys: Seq<Seq<char>>) -> Option<Seq<char>> {
    match matchers_fault(INCLUDED@, matchers_view(filter.includes@), keys, 0) {
        Some(why) => Some(why),
        None => matchers_fault("exclude"@, matchers_view(filter.exclude@), keys, 0),
    }
}

impl Matcher {
    /// The matcher `spec` reads as, refused where it is not one.
    pub fn parse(spec: &str, read: Result<Matcher, String>, keys: &Vec<String>) -> (r: Result<
        Matcher,
        FilterError,
    >)
        ensures
            match read {
                Err(failure) => r is Err && r->Err_0.why@ == "the matcher is unusable: "@
                    + failure@,
                Ok(matcher) => match matcher_fault(matcher@, texts(keys@)) {
                    None => r == Ok::<Matcher, FilterError>(matcher),
                    Some(why) => r is Err && r->Err_0.why@ == spec@ + ": "@ + why,
                },
            },
    {
        match read {
            Err(failure) => Err(
                FilterError { why: cat2("the matcher is unusable: ", failure.as_str()) },
            ),
            Ok(matcher) => match matcher.check(keys) {
                Ok(()) => Ok(matcher),
                Err(why) => Err(FilterError { why: cat3(spec, ": ", why.as_str()) }),
            },
        }
    }
}

impl Filter {
    /// A filter that takes every event.
    pub fn everything() -> (r: Self)
        ensures
            r.includes@.len() == 0,
            r.exclude@.len() == 0,
    {
        Filter { includes: Vec::new(), exclude: Vec::new() }
    }

    /// Whether this takes an event of a source and kind that carries what its
    /// dimensions and labels do.
    pub fn allows(
        &self,
        source: &str,
        kind: &str,
        dimensions: &Vec<(String, Json)>,
        labels: &Vec<(String, Json)>,
    ) -> (r: bool)
        ensures
            r == takes(
                matchers_view(self.includes@),
                matchers_view(self.exclude@),
                source@,
                kind@,
                extended(fields_view(dimensions@), fields_view(labels@)),
            ),
    {
        if self.includes.len() == 0 && self.exclude.len() == 0 {
            return true;
        }
        let carried = carried_of(dimensions, labels);
        if some_holds(&self.exclude, source, kind, &carried) {
            return false;
        }
        self.includes.len() == 0 || some_holds(&self.includes, source, kind, &carried)
    }

    /// Whether this takes an envelope.
    pub fn matches(&self, envelope: &Envelope) -> (r: bool)
        ensures
            r == takes(
                matchers_view(self.includes@),
                matchers_view(self.exclude@),
                envelope.source.0@,
                envelope.kind.0@,
                extended(fields_view(envelope.dimensions@), envelope.labels@),
            ),
    {
        self.allows(
            envelope.source.as_str(),
            envelope.kind.as_str(),
            &envelope.dimensions,
            &envelope.labels.0,
        )
    }

    /// Whether a spec is a filter's document itself, its first character past any space
    /// an opening brace, and not the path of a file that holds one.
    pub fn is_inline(spec: &str) -> (r: bool)
        ensures
            r == starts(trimmed(spec@), "{"@),
    {
        let spec = trim(spec);
        starts_with(spec.as_str(), "{")
    }

    /// That the file a spec names cannot be read.
    pub fn unreadable(spec: &str, failure: &str) -> (r: FilterError)
        ensures
            r.why@ == "cannot read the event filter "@ + spec@ + ": "@ + failure@,
    {
        FilterError { why: cat4("cannot read the event filter ", spec, ": ", failure) }
    }

    /// The filter a document reads as, refused where a matcher of it is not one: a
    /// filter nobody could honour is refused where it is read.
    pub fn parse(read: Result<Filter, String>, keys: &Vec<String>) -> (r: Result<
        Filter,
        FilterError,
    >)
        ensures
            match read {
                Err(failure) => r is Err && r->Err_0.why@ == "the event filter is unusable: "@
                    + failure@,
                Ok(filter) => match filter_fault(filter, texts(keys@)) {
                    None => r == Ok::<Filter, FilterError>(filter),
                    Some(why) => r is Err && r->Err_0.why@ == why,
                },
            },
    {
        match read {
            Err(failure) => Err(
                FilterError { why: cat2("the event filter is unusable: ", failure.as_str()) },
            ),
            Ok(filter) => match filter.validate(keys) {
                Ok(()) => Ok(filter),
                Err(why) => Err(FilterError { why }),
            },
        }
    }

    /// Refuses a filter that holds a matcher that is not one, naming it.
    pub fn validate(&self, keys: &Vec<String>) -> (r: Result<(), String>)
        ensures
            match r {
                Ok(()) => filter_fault(*self, texts(keys@)) is None,
                Err(why) => filter_fault(*self, texts(keys@)) == Some(why@),
            },
    {
        if let Err(why) = check_all(INCLUDED, &self.includes, keys) {
            return Err(why);
        }
        check_all("exclude", &self.exclude, keys)
    }
}

/// The key the matchers of what is taken are written under.
pub const INCLUDED: &'static str = "include";

/// A filter that asks nothing takes everything.
pub proof fn empty_filter_takes_everything(
    source: Seq<char>,
    kind: Seq<char>,
    carried: Seq<(Seq<char>, JsonView)>,
)
    ensures
        takes(Seq::empty(), Seq::empty(), source, kind, carried),
{
}

/// What is left out is left out, whatever is taken.
pub proof fn exclusion_wins(
    includes: Seq<MatcherView>,
    exclude: Seq<MatcherView>,
    source: Seq<char>,
    kind: Seq<char>,
    carried: Seq<(Seq<char>, JsonView)>,
    i: int,
)
    requires
        0 <= i < exclude.len(),
        matcher_holds(exclude[i], source, kind, carried),
    ensures
        !takes(includes, exclude, source, kind, carried),
{
}

/// What some matcher of what is taken asks for, wherever it stands among them, is taken,
/// unless it is left out.
pub proof fn any_inclusion_takes(
    includes: Seq<MatcherView>,
    exclude: Seq<MatcherView>,
    source: Seq<char>,
    kind: Seq<char>,
    carried: Seq<(Seq<char>, JsonView)>,
    i: int,
)
    requires
        0 <= i < includes.len(),
        matcher_holds(includes[i], source, kind, carried),
        forall|k: int|
            0 <= k < exclude.len() ==> !matcher_holds(#[trigger] exclude[k], source, kind, carried),
    ensures
        takes(includes, exclude, source, kind, carried),
{
}

/// With matchers of what is taken, what none of them asks for is not taken.
pub proof fn nothing_unasked_is_taken(
    includes: Seq<MatcherView>,
    exclude: Seq<MatcherView>,
    source: Seq<char>,
    kind: Seq<char>,
    carried: Seq<(Seq<char>, JsonView)>,
)
    requires
        includes.len() > 0,
        forall|k: int|
            0 <= k < includes.len() ==> !matcher_holds(
                #[trigger] includes[k],
                source,
                kind,
                carried,
            ),
    ensures
        !takes(includes, exclude, source, kind, carried),
{
}

/// With no matcher of what is taken, all is taken that is not left out.
pub proof fn exclusions_alone_decide(
    exclude: Seq<MatcherView>,
    source: Seq<char>,
    kind: Seq<char>,
    carried: Seq<(Seq<char>, JsonView)>,
)
    ensures
        takes(Seq::empty(), exclude, source, kind, carried) <==> forall|k: int|
            0 <= k < exclude.len() ==> !matcher_holds(#[trigger] exclude[k], source, kind, carried),
{
}

/// A matcher that asks one thing holds of exactly the events that have it, and one that
/// asks more holds of no event that lacks any of it.
pub proof fn matcher_asks_each_part(
    matcher: MatcherView,
    source: Seq<char>,
    kind: Seq<char>,
    carried: Seq<(Seq<char>, JsonView)>,
    name: Seq<char>,
)
    ensures
        matcher_holds(
            MatcherView { source: Some(name), kind: None, fields: Seq::empty() },
            source,
            kind,
            carried,
        ) <==> name == source,
        matcher_holds(
            MatcherView { source: None, kind: Some(name), fields: Seq::empty() },
            source,
            kind,
            carried,
        ) <==> glob_matches(name, kind),
        matcher_holds(
            MatcherView { source: None, kind: None, fields: matcher.fields },
            source,
            kind,
            carried,
        ) <==> forall|i: int|
            0 <= i < matcher.fields.len() ==> field(carried, (#[trigger] matcher.fields[i]).0)
                is Some && same(field(carried, matcher.fields[i].0)->0, matcher.fields[i].1),
        matcher_holds(matcher, source, kind, carried) <==> {
            &&& matcher_holds(
                MatcherView { source: matcher.source, kind: None, fields: Seq::empty() },
                source,
                kind,
                carried,
            )
            &&& matcher_holds(
                MatcherView { source: None, kind: matcher.kind, fields: Seq::empty() },
                source,
                kind,
                carried,
            )
            &&& matcher_holds(
                MatcherView { source: None, kind: None, fields: matcher.fields },
                source,
                kind,
                carried,
            )
        },
{
}

/// A pattern with a `*` between two others stands for what the one stands for, then
/// anything, then what the other stands for.
pub proof fn star_joins_patterns(before: Seq<char>, after: Seq<char>, a: Seq<char>, run: Seq<char>, b: Seq<char>)
    requires
        glob_matches(before, a),
        glob_matches(after, b),
    ensures
        glob_matches(before + seq!['*'] + after, a + run + b),
    decreases before.len() + a.len() + run.len(),
{
    let whole = before + seq!['*'] + after;
    let text = a + run + b;
    if before.len() == 0 {
        assert(a =~= Seq::<char>::empty());
        assert(whole[0] == '*');
        assert(whole.skip(1) =~= after);
        if run.len() == 0 {
            assert(text =~= b);
        } else {
            star_joins_patterns(before, after, a, run.skip(1), b);
            assert(text.skip(1) =~= a + run.skip(1) + b);
        }
    } else {
        assert(whole[0] == before[0]);
        assert(whole.skip(1) =~= before.skip(1) + seq!['*'] + after);
        if before[0] == '*' {
            if glob_matches(before.skip(1), a) {
                star_joins_patterns(before.skip(1), after, a, run, b);
            } else {
                star_joins_patterns(before, after, a.skip(1), run, b);
                assert(text.skip(1) =~= a.skip(1) + run + b);
            }
        } else {
            star_joins_patterns(before.skip(1), after, a.skip(1), run, b);
            assert(text[0] == a[0]);
            assert(text.skip(1) =~= a.skip(1) + run + b);
        }
    }
}

/// What [`Filter::allows`] says of an event is told by its matchers alone: it takes one
/// that some matcher of what is taken asks for, or any where there is none, and that
/// none of what is left out asks for.
pub proof fn filters_are_told_by_their_matchers(
    filter: &Filter,
    source: &str,
    kind: &str,
    dimensions: &Vec<(String, Json)>,
    labels: &Vec<(String, Json)>,
    r: bool,
)
    requires
        call_ensures(Filter::allows, (filter, source, kind, dimensions, labels), r),
    ensures
        ({
            let carried = extended(fields_view(dimensions@), fields_view(labels@));
            let asks = |m: Matcher| matcher_holds(m@, source@, kind@, carried);
            &&& r ==> forall|i: int| 0 <= i < filter.exclude@.len() ==> !asks(#[trigger] filter.exclude@[i])
            &&& r ==> filter.includes@.len() == 0 || exists|i: int|
                0 <= i < filter.includes@.len() && asks(#[trigger] filter.includes@[i])
            &&& (forall|i: int| 0 <= i < filter.exclude@.len() ==> !asks(#[trigger] filter.exclude@[i]))
                && (filter.includes@.len() == 0 || exists|i: int|
                0 <= i < filter.includes@.len() && asks(#[trigger] filter.includes@[i])) ==> r
        }),
{
    let carried = extended(fields_view(dimensions@), fields_view(labels@));
    let includes = matchers_view(filter.includes@);
    let exclude = matchers_view(filter.exclude@);
    assert forall|i: int| 0 <= i < includes.len() implies #[trigger] includes[i]
        == filter.includes@[i]@ by {}
    assert forall|i: int| 0 <= i < exclude.len() implies #[trigger] exclude[i]
        == filter.exclude@[i]@ by {}
    let asks = |m: Matcher| matcher_holds(m@, source@, kind@, carried);
    if any_holds(includes, source@, kind@, carried) {
        let i = choose|i: int| 0 <= i < includes.len() && matcher_holds(#[trigger] includes[i], source@, kind@, carried);
        assert(asks(filter.includes@[i]));
    }
    if exists|i: int| 0 <= i < filter.includes@.len() && asks(#[trigger] filter.includes@[i]) {
        let i = choose|i: int| 0 <= i < filter.includes@.len() && asks(#[trigger] filter.includes@[i]);
        assert(matcher_holds(includes[i], source@, kind@, carried));
    }
    assert forall|i: int| 0 <= i < filter.exclude@.len() implies asks(#[trigger] filter.exclude@[i]) == matcher_holds(exclude[i], source@, kind@, carried) by {}
    if any_holds(exclude, source@, kind@, carried) {
        let i = choose|i: int| 0 <= i < exclude.len() && matcher_holds(#[trigger] exclude[i], source@, kind@, carried);
        assert(asks(filter.exclude@[i]));
    }
}

} // verus!
