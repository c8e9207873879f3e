//! Which host a URL names, and which hosts a proxy is not used for.

use crate::filter::text_view;
use crate::text::{
    blank, cat2, chars_of, ends, ends_with, first_at, first_of, is_blank, last_at, last_of,
    lemma_first_at, lemma_leading_bound, lower, lower_of, same_text, split, split_on, string_of,
    texts, trim, trimmed,
};
use vstd::prelude::*;

verus! {

/// `text` without the `c`s it starts with.
pub open spec fn without_leading(text: Seq<char>, c: char) -> Seq<char>
    decreases text.len(),
{
    if text.len() > 0 && text[0] == c {
        without_leading(text.skip(1), c)
    } else {
        text
    }
}

/// `text` without the `c`s it ends with.
pub open spec fn without_trailing(text: Seq<char>, c: char) -> Seq<char>
    decreases text.len(),
{
    if text.len() > 0 && text.last() == c {
        without_trailing(text.drop_last(), c)
    } else {
        text
    }
}

/// How often `c` occurs in `text`.
pub open spec fn occurrences(text: Seq<char>, c: char) -> nat
    decreases text.len(),
{
    if text.len() == 0 {
        0
    } else {
        occurrences(text.drop_last(), c) + if text.last() == c {
            1nat
        } else {
            0nat
        }
    }
}

/// What follows the last `c` of `text`, or all of it.
pub open spec fn after_last(text: Seq<char>, c: char) -> Seq<char> {
    match last_at(text, c) {
        Some(at) => text.skip(at + 1),
        None => text,
    }
}

/// What stands before the first `c` of `text`, or all of it.
pub open spec fn before_first(text: Seq<char>, c: char) -> Seq<char> {
    match first_at(text, c) {
        Some(at) => text.take(at),
        None => text,
    }
}

/// Where the `c`s that `text` starts with end.
fn leading_run(chars: &Vec<char>, c: char) -> (r: usize)
    ensures
        r <= chars@.len(),
        chars@.skip(r as int) == without_leading(chars@, c),
{
    let mut i: usize = 0;
    proof {
        assert(chars@.skip(0) =~= chars@);
    }
    while i < chars.len() && chars[i] == c
        invariant
            i <= chars@.len(),
            without_leading(chars@, c) == without_leading(chars@.skip(i as int), c),
        decreases chars@.len() - i,
    {
        proof {
            assert(chars@.skip(i as int).skip(1) =~= chars@.skip(i + 1));
        }
        i += 1;
    }
    i
}

/// `text` without the `c`s it starts with.
pub fn cut_leading(text: &str, c: char) -> (r: String)
    ensures
        r@ == without_leading(text@, c),
{
    let chars = chars_of(text);
    let from = leading_run(&chars, c);
    let len: usize = chars.len();
    let r = string_of(&chars, from, len);
    proof {
        assert(r@ =~= chars@.skip(from as int));
    }
    r
}

/// `text` without the `c`s it ends with.
pub fn cut_trailing(text: &str, c: char) -> (r: String)
    ensures
        r@ == without_trailing(text@, c),
{
    let chars = chars_of(text);
    let mut end: usize = chars.len();
    proof {
        assert(chars@.take(end as int) =~= chars@);
    }
    while end > 0 && chars[end - 1] == c
        invariant
            end <= chars@.len(),
            chars@ == text@,
            without_trailing(text@, c) == without_trailing(chars@.take(end as int), c),
        decreases end,
    {
        proof {
            assert(chars@.take(end as int).drop_last() =~= chars@.take(end - 1));
        }
        end = end - 1;
    }
    let r = string_of(&chars, 0, end);
    proof {
        assert(r@ =~= chars@.take(end as int));
    }
    r
}

/// Whether `c` occurs in `text` exactly once.
fn occurs_once(chars: &Vec<char>, c: char) -> (r: bool)
    ensures
        r == (occurrences(chars@, c) == 1),
{
    let mut seen: u8 = 0;
    let mut i: usize = 0;
    proof {
        assert(chars@.take(0) =~= Seq::<char>::empty());
    }
    while i < chars.len()
        invariant
            i <= chars@.len(),
            seen <= 2,
            seen < 2 ==> seen == occurrences(chars@.take(i as int), c),
            seen == 2 ==> occurrences(chars@.take(i as int), c) >= 2,
        decreases chars@.len() - i,
    {
        proof {
            assert(chars@.take(i + 1).drop_last() =~= chars@.take(i as int));
        }
        if chars[i] == c && seen < 2 {
            seen = seen + 1;
        }
        i += 1;
    }
    proof {
        assert(chars@.take(i as int) =~= chars@);
    }
    seen == 1
}

/// What follows the last `c` of `text`, or all of it.
pub fn cut_after_last(text: &str, c: char) -> (r: String)
    ensures
        r@ == after_last(text@, c),
{
    let chars = chars_of(text);
    let len: usize = chars.len();
    match last_of(&chars, c) {
        Some(at) => {
            let r = string_of(&chars, at + 1, len);
            proof {
                assert(r@ =~= text@.skip(at + 1));
            }
            r
        },
        None => text.to_owned(),
    }
}

/// What stands before the first `c` of `text`, or all of it.
pub fn cut_before_first(text: &str, c: char) -> (r: String)
    ensures
        r@ == before_first(text@, c),
{
    let chars = chars_of(text);
    match first_of(&chars, c) {
        Some(at) => {
            let r = string_of(&chars, 0, at);
            proof {
                assert(r@ =~= text@.take(at as int));
            }
            r
        },
        None => text.to_owned(),
    }
}

// ---------------------------------------------------------------------------
// The host a URL names.
// ---------------------------------------------------------------------------

/// Whether `c` ends a URL's authority.
pub open spec fn ends_authority(c: char) -> bool {
    c == '/' || c == '?' || c == '#'
}

/// The authority `rest` begins with: what stands before the first `/`, `?` or
/// `#`.
pub open spec fn authority_of(rest: Seq<char>) -> Seq<char>
    decreases rest.len(),
{
    if rest.len() == 0 || ends_authority(rest[0]) {
        Seq::empty()
    } else {
        seq![rest[0]] + authority_of(rest.skip(1))
    }
}

/// How long the authority `rest` begins with is.
pub fn authority_len(rest: &Vec<char>, from: usize) -> (r: usize)
    requires
        from <= rest@.len(),
    ensures
        from <= r <= rest@.len(),
        rest@.subrange(from as int, r as int) == authority_of(rest@.skip(from as int)),
    decreases rest@.len() - from,
{
    let ghost here = rest@.skip(from as int);
    if from == rest.len() || rest[from] == '/' || rest[from] == '?' || rest[from] == '#' {
        proof {
            assert(rest@.subrange(from as int, from as int) =~= Seq::<char>::empty());
        }
        from
    } else {
        let end = authority_len(rest, from + 1);
        proof {
            assert(here.skip(1) =~= rest@.skip(from + 1));
            assert(rest@.subrange(from as int, end as int) =~= seq![here[0]] + rest@.subrange(
                from + 1,
                end as int,
            ));
        }
        end
    }
}

/// The host of the authority that begins `rest`, what follows `scheme://`:
/// nothing where it names none.
pub open spec fn host_in(rest: Seq<char>) -> Option<Seq<char>> {
    let host_port = after_last(authority_of(rest), '@');
    let host = if host_port.len() > 0 && host_port[0] == '[' {
        match first_at(host_port, ']') {
            Some(end) => host_port.take(end + 1),
            None => Seq::empty(),
        }
    } else {
        before_first(host_port, ':')
    };
    if host.len() == 0 {
        None
    } else {
        Some(host)
    }
}

/// The host of the authority that begins `rest`.
pub fn host_of(rest: &str) -> (r: Option<String>)
    ensures
        match r {
            Some(host) => host_in(rest@) == Some(host@),
            None => host_in(rest@) is None,
        },
{
    let chars = chars_of(rest);
    let end = authority_len(&chars, 0);
    let authority = string_of(&chars, 0, end);
    proof {
        assert(rest@.skip(0) =~= rest@);
        assert(authority@ =~= authority_of(rest@));
    }
    let host_port = cut_after_last(authority.as_str(), '@');
    let inner = chars_of(host_port.as_str());
    let host = if inner.len() > 0 && inner[0] == '[' {
        match first_of(&inner, ']') {
            Some(at) => {
                let host = string_of(&inner, 0, at + 1);
                proof {
                    assert(host@ =~= host_port@.take(at + 1));
                }
                host
            },
            None => return None,
        }
    } else {
        cut_before_first(host_port.as_str(), ':')
    };
    if host.as_str().is_empty() {
        None
    } else {
        Some(host)
    }
}

// ---------------------------------------------------------------------------
// The hosts a proxy is not used for.
// ---------------------------------------------------------------------------

/// An entry without its brackets or its port.
pub open spec fn bare_entry(entry: Seq<char>) -> Seq<char> {
    let entry = without_leading(entry, '[');
    if first_at(entry, ']') is Some {
        before_first(entry, ']')
    } else if occurrences(entry, ':') == 1 {
        before_first(entry, ':')
    } else {
        entry
    }
}

/// The domain a bare entry is, without the `*` and `.` it starts with.
pub open spec fn entry_domain(entry: Seq<char>) -> Seq<char> {
    without_leading(without_leading(entry, '*'), '.')
}

/// Whether one entry exempts a bare host: `*`, the host itself, or a domain it
/// is under.
pub open spec fn entry_admits(entry: Seq<char>, host: Seq<char>) -> bool {
    let bare = bare_entry(entry);
    let domain = entry_domain(bare);
    bare == "*"@ || host == domain || ends(host, "."@ + domain)
}

/// A host without its brackets, in lower case.
pub open spec fn bare_host(host: Seq<char>) -> Seq<char> {
    lower(without_trailing(without_leading(host, '['), ']'))
}

/// An entry of a list, trimmed, in lower case.
pub open spec fn listed_entry(list: Seq<char>, i: int) -> Seq<char> {
    lower(trimmed(split_on(list, ',')[i]))
}

/// Whether a list exempts a host: some entry that is not empty does.
pub open spec fn exempts(list: Seq<char>, host: Seq<char>) -> bool {
    exists|i: int|
        0 <= i < split_on(list, ',').len() && (#[trigger] listed_entry(list, i)).len() > 0
            && entry_admits(listed_entry(list, i), bare_host(host))
}

fn admits_entry(entry: &str, host: &str) -> (r: bool)
    ensures
        r == entry_admits(entry@, host@),
{
    let open = cut_leading(entry, '[');
    let chars = chars_of(open.as_str());
    let bare = if first_of(&chars, ']').is_some() {
        cut_before_first(open.as_str(), ']')
    } else if occurs_once(&chars, ':') {
        cut_before_first(open.as_str(), ':')
    } else {
        open
    };
    if same_text(bare.as_str(), "*") {
        return true;
    }
    let starless = cut_leading(bare.as_str(), '*');
    let domain = cut_leading(starless.as_str(), '.');
    let under = cat2(".", domain.as_str());
    same_text(host, domain.as_str()) || ends_with(host, under.as_str())
}

/// Whether a list of hosts exempts `host`: `*`, the host itself, or a suffix
/// written `.example.org` or `*.example.org`, which also admits the domain
/// itself. Each entry is trimmed and compared without case or port.
pub fn no_proxy_admits(list: &str, host: &str) -> (r: bool)
    ensures
        r == exempts(list@, host@),
{
    let open = cut_leading(host, '[');
    let closed = cut_trailing(open.as_str(), ']');
    let bare = lower_of(closed.as_str());
    let entries = split(list, ',');
    let mut i: usize = 0;
    while i < entries.len()
        invariant
            i <= entries@.len(),
            texts(entries@) == split_on(list@, ','),
            bare@ == bare_host(host@),
            forall|k: int|
                0 <= k < i ==> !((#[trigger] listed_entry(list@, k)).len() > 0 && entry_admits(
                    listed_entry(list@, k),
                    bare@,
                )),
        decreases entries@.len() - i,
    {
        let text = trim(entries[i].as_str());
        let entry = lower_of(text.as_str());
        proof {
            assert(texts(entries@)[i as int] == entries@[i as int]@);
            assert(entry@ == listed_entry(list@, i as int));
            assert(entries@.len() == split_on(list@, ',').len());
        }
        if !entry.as_str().is_empty() && admits_entry(entry.as_str(), bare.as_str()) {
            return true;
        }
        i += 1;
    }
    false
}

/// A list that names nothing exempts nothing.
pub proof fn empty_list_exempts_nothing(host: Seq<char>)
    ensures
        !exempts(Seq::empty(), host),
{
    let list = Seq::<char>::empty();
    assert(split_on(list, ',') =~= seq![Seq::<char>::empty()]);
    assert forall|i: int| 0 <= i < split_on(list, ',').len() implies (#[trigger] listed_entry(
        list,
        i,
    )).len() == 0 by {
        lemma_leading_bound(list);
        assert(trimmed(split_on(list, ',')[i]).len() == 0);
    }
}

/// An entry that is `*` exempts every host.
pub proof fn star_exempts_every_host(list: Seq<char>, i: int, host: Seq<char>)
    requires
        0 <= i < split_on(list, ',').len(),
        listed_entry(list, i) == "*"@,
    ensures
        exempts(list, host),
{
    reveal_strlit("*");
    let entry = listed_entry(list, i);
    assert(entry =~= seq!['*']);
    assert(without_leading(entry, '[') == entry);
    lemma_first_at(entry, ']', None);
    reveal_with_fuel(occurrences, 2);
    assert(bare_entry(entry) == entry);
    assert(entry_admits(entry, bare_host(host)));
}

// ---------------------------------------------------------------------------
// The proxy a request goes through.
// ---------------------------------------------------------------------------

/// The first of two values that is there and not blank.
pub open spec fn first_set(first: Option<Seq<char>>, second: Option<Seq<char>>) -> Option<
    Seq<char>,
> {
    match first {
        Some(value) if !is_blank(value) => Some(value),
        _ => match second {
            Some(value) if !is_blank(value) => Some(value),
            _ => None,
        },
    }
}

/// What names a proxy in an environment, in both spellings.
#[derive(Debug)]
pub struct ProxyEnv {
    /// `HTTPS_PROXY` and `https_proxy`.
    pub https: (Option<String>, Option<String>),
    /// `HTTP_PROXY` and `http_proxy`.
    pub http: (Option<String>, Option<String>),
    /// `NO_PROXY` and `no_proxy`.
    pub exempt: (Option<String>, Option<String>),
}

fn set_in(pair: &(Option<String>, Option<String>)) -> (r: Option<String>)
    ensures
        text_view(r) == first_set(text_view(pair.0), text_view(pair.1)),
{
    if let Some(value) = &pair.0 {
        if !blank(value.as_str()) {
            return Some(value.clone());
        }
    }
    if let Some(value) = &pair.1 {
        if !blank(value.as_str()) {
            return Some(value.clone());
        }
    }
    None
}

/// The proxy an environment names for a host: the one of the URL's scheme,
/// trimmed, unless the host is exempt.
pub open spec fn proxy_named(env: ProxyEnv, https: bool, host: Seq<char>) -> Option<Seq<char>> {
    let pair = if https {
        env.https
    } else {
        env.http
    };
    match first_set(text_view(pair.0), text_view(pair.1)) {
        None => None,
        Some(named) => match first_set(text_view(env.exempt.0), text_view(env.exempt.1)) {
            Some(list) if exempts(list, host) => None,
            _ => Some(trimmed(named)),
        },
    }
}

/// The proxy a request to `host` goes through.
pub fn proxy_for(env: &ProxyEnv, https: bool, host: &str) -> (r: Option<String>)
    ensures
        text_view(r) == proxy_named(*env, https, host@),
{
    let named = if https {
        set_in(&env.https)
    } else {
        set_in(&env.http)
    };
    match named {
        None => None,
        Some(named) => {
            if let Some(list) = set_in(&env.exempt) {
                if no_proxy_admits(list.as_str(), host) {
                    return None;
                }
            }
            Some(trim(named.as_str()))
        },
    }
}

} // verus!
