//! What holds of resolving a link to a bundle.

use crate::bundle::{
    BundleVersion, SchemaBundle, part_at, pin_admits, version_before, version_parts,
};
use crate::json::{Json, JsonView, settled};
use crate::link::{LinkError, SchemaLink};
use crate::proxy::{
    ProxyEnv, bare_entry, entry_admits, exempts, occurrences, proxy_for, without_leading,
};
use crate::resolve::{
    Consulted, Entry, Freshness, Keeping, LinkResolver, Plan, Resolved, Revalidation,
    newest_entry_is_used,
};
use crate::schema::{
    CheckError, Read, Registry, SchemaId, SchemaIdView, held, id_before, placed, schema_admits,
};
use crate::stamp::ConfirmedAt;
use crate::text::{ends, first_at, is_blank, trimmed};
use vstd::prelude::*;

verus! {

/// A cached bundle is used with no request within its window, asked after once the window
/// is past, and asked after whenever that is asked for; the cache is used as it is where it
/// goes first. What is used is of the newest version the pin admits, and where the pin
/// admits none the bundle is fetched.
pub proof fn caches_are_trusted_for_their_window(
    resolver: &LinkResolver,
    pin: &BundleVersion,
    entries: &Vec<Entry>,
    now: ConfirmedAt,
    freshness: Freshness,
    r: Consulted,
    i: int,
)
    requires
        call_ensures(LinkResolver::consult, (resolver, pin, entries, now, freshness), r),
        0 <= i < entries@.len(),
    ensures
        ({
            let used = if r is Cached {
                r->Cached_0 as int
            } else {
                r->Revalidate_0 as int
            };
            let age = now.second() - entries@[used].meta.confirmed_at.second();
            &&& pin_admits(pin@, entries@[i].meta.version@) ==> !(r is Fetch)
            &&& !(r is Fetch) ==> 0 <= used < entries@.len() && pin_admits(
                pin@,
                entries@[used].meta.version@,
            )
            &&& !(r is Fetch) && pin_admits(pin@, entries@[i].meta.version@) ==> !version_before(
                entries@[used].meta.version@,
                entries@[i].meta.version@,
            )
            &&& !(r is Fetch) && freshness == Freshness::CachedFirst ==> r is Cached
            &&& !(r is Fetch) && freshness == Freshness::Revalidate ==> r is Revalidate
            &&& !(r is Fetch) && freshness == Freshness::Window && 0 <= age < resolver.window()
                && age <= i64::MAX ==> r is Cached
            &&& !(r is Fetch) && freshness == Freshness::Window && age >= resolver.window()
                && resolver.window() <= i64::MAX ==> r is Revalidate
        }),
{
    newest_entry_is_used(entries@, pin@, entries@.len() as int);
}

/// A link to a file is read, whatever is cached; one to a URL is fetched where nothing is
/// cached or it has no pin, and is looked up in the cache otherwise.
pub proof fn links_are_planned_by_where_they_point(
    resolver: &LinkResolver,
    link: &SchemaLink,
    freshness: Freshness,
    r: Plan,
)
    requires
        call_ensures(LinkResolver::plan, (resolver, link, freshness), r),
    ensures
        link@.location is File ==> r is Read && r->path@ == link@.location->File_0,
        link@.location is Remote && (link@.pin is None || resolver.caches_in() is None) ==> r is Fetch,
        link@.location is Remote && link@.pin is Some && resolver.caches_in() is Some
            && !resolver.forces() ==> r is Consult,
        link@.location is Remote && link@.pin is Some && resolver.caches_in() is Some
            && resolver.forces() && freshness == Freshness::Window ==> r is Replace,
        link@.location is Remote && link@.pin is Some && resolver.caches_in() is Some && freshness
            == Freshness::CachedFirst ==> r is Consult,
{
}

/// A cached bundle outlives an origin that cannot be asked: only a bundle the pin admits
/// takes its place, and only one the pin does not admit is refused.
pub proof fn cached_bundles_outlive_their_origin(
    link: &SchemaLink,
    entry: SchemaBundle,
    answer: Revalidation,
    r: Result<(Resolved, Keeping), LinkError>,
)
    requires
        call_ensures(LinkResolver::after_revalidation, (link, entry, answer), r),
    ensures
        match answer {
            Revalidation::Unchanged => r is Ok && r->Ok_0.0.bundle_is() == entry,
            Revalidation::Failed(_) => r is Ok && r->Ok_0.0.bundle_is() == entry,
            Revalidation::Document(Err(_)) => r is Ok && r->Ok_0.0.bundle_is() == entry,
            Revalidation::Document(Ok(bundle)) => if link@.pin is None || pin_admits(
                link@.pin->0,
                bundle.declares(),
            ) {
                r is Ok && r->Ok_0.0.bundle_is() == bundle
            } else {
                r is Err
            },
        },
{
}

/// A pin admits a version where each component it names is the version's, and no other.
pub proof fn pins_admit_by_their_components(pin: Seq<char>, declared: Seq<char>, i: int)
    requires
        0 <= i < version_parts(pin).len(),
    ensures
        pin_admits(pin, declared) ==> version_parts(pin)[i] == if i < version_parts(declared).len() {
            version_parts(declared)[i]
        } else {
            0
        },
        (forall|k: int|
            0 <= k < version_parts(pin).len() ==> #[trigger] version_parts(pin)[k] == if k
                < version_parts(declared).len() {
                version_parts(declared)[k]
            } else {
                0
            }) ==> pin_admits(pin, declared),
{
    if pin_admits(pin, declared) {
        assert(part_at(pin, i) == part_at(declared, i));
    }
    if forall|k: int|
        0 <= k < version_parts(pin).len() ==> #[trigger] version_parts(pin)[k] == if k
            < version_parts(declared).len() {
            version_parts(declared)[k]
        } else {
            0
        } {
        assert forall|k: int| 0 <= k < version_parts(pin).len() implies #[trigger] part_at(pin, k)
            == part_at(declared, k) by {
            assert(version_parts(pin)[k] == part_at(pin, k));
        }
    }
}

/// The first component two versions differ in says which is older, a missing one read as 0.
pub proof fn versions_are_told_apart_by_their_first_difference(
    a: Seq<char>,
    b: Seq<char>,
    i: int,
)
    requires
        0 <= i < 3,
        forall|k: int| 0 <= k < i ==> #[trigger] part_at(a, k) == part_at(b, k),
        part_at(a, i) < part_at(b, i),
    ensures
        version_before(a, b),
        !version_before(b, a),
{
    if i > 0 {
        assert(part_at(a, 0) == part_at(b, 0));
    }
    if i > 1 {
        assert(part_at(a, 1) == part_at(b, 1));
    }
}

/// A request goes through the proxy its scheme's variable names, the first spelling that
/// says anything, unless the host is exempt; through none where none says anything.
pub proof fn proxies_are_named_by_their_scheme(
    env: &ProxyEnv,
    https: bool,
    host: &str,
    r: Option<String>,
)
    requires
        call_ensures(proxy_for, (env, https, host), r),
    ensures
        ({
            let pair = if https {
                env.https
            } else {
                env.http
            };
            let says = |v: Option<String>| v is Some && !is_blank(v->0@);
            let named = if says(pair.0) {
                pair.0
            } else {
                pair.1
            };
            let exempt = if says(env.exempt.0) {
                env.exempt.0
            } else {
                env.exempt.1
            };
            &&& !says(pair.0) && !says(pair.1) ==> r is None
            &&& says(named) && says(exempt) && exempts(exempt->0@, host@) ==> r is None
            &&& says(named) && !(says(exempt) && exempts(exempt->0@, host@)) ==> r is Some
                && r->0@ == trimmed(named->0@)
        }),
{
}

/// An entry exempts the host it is, and every host under the domain it is.
pub proof fn exemptions_cover_their_domain(domain: Seq<char>, under: Seq<char>)
    requires
        domain.len() > 0,
        domain[0] != '[' && domain[0] != '*' && domain[0] != '.',
        !domain.contains(']'),
        !domain.contains(':'),
    ensures
        entry_admits(domain, domain),
        entry_admits(domain, under + "."@ + domain),
        entry_admits("."@ + domain, under + "."@ + domain),
{
    reveal_strlit(".");
    lemma_entry_is_bare(domain);
    let dotted = "."@ + domain;
    assert(dotted[0] == '.');
    assert(dotted.skip(1) =~= domain);
    assert forall|k: int| 0 <= k < dotted.len() implies #[trigger] dotted[k] != ']' && dotted[k] != ':' by {
        if k > 0 {
            assert(dotted[k] == domain[k - 1]);
        }
    }
    lemma_entry_is_bare(dotted);
    assert(without_leading(dotted, '*') == dotted);
    assert(without_leading(dotted, '.') == without_leading(domain, '.'));
    assert(without_leading(domain, '*') == domain);
    assert(without_leading(domain, '.') == domain);
    let host = under + "."@ + domain;
    let end = "."@ + domain;
    assert(host.subrange(host.len() - end.len(), host.len() as int) =~= end);
    assert(ends(host, end));
}

proof fn lemma_entry_is_bare(entry: Seq<char>)
    requires
        entry.len() > 0,
        entry[0] != '[',
        !entry.contains(']'),
        !entry.contains(':'),
    ensures
        bare_entry(entry) == entry,
{
    assert(without_leading(entry, '[') == entry);
    lemma_none_at(entry, ']');
    lemma_no_occurrence(entry, ':');
}

proof fn lemma_none_at(text: Seq<char>, c: char)
    requires
        !text.contains(c),
    ensures
        first_at(text, c) is None,
    decreases text.len(),
{
    if text.len() > 0 {
        assert(text[0] != c);
        let rest = text.skip(1);
        if rest.contains(c) {
            let k = choose|k: int| 0 <= k < rest.len() && rest[k] == c;
            assert(text[k + 1] == c);
        }
        lemma_none_at(rest, c);
    }
}

proof fn lemma_no_occurrence(text: Seq<char>, c: char)
    requires
        !text.contains(c),
    ensures
        occurrences(text, c) == 0,
    decreases text.len(),
{
    if text.len() > 0 {
        let rest = text.drop_last();
        assert(text[text.len() - 1] == text.last());
        if rest.contains(c) {
            let k = choose|k: int| 0 <= k < rest.len() && rest[k] == c;
            assert(text[k] == c);
        }
        lemma_no_occurrence(rest, c);
    }
}

/// A registered schema is the one checked against, and nothing conforms to an id nothing is
/// registered under.
pub proof fn payloads_are_checked_against_their_own_schema(
    registry: &Registry,
    id: &SchemaId,
    payload: &Json,
    r: Result<(), CheckError>,
    i: int,
)
    requires
        call_ensures(Registry::check, (registry, id, payload), r),
        0 <= i <= registry@.len(),
        i < registry@.len() ==> registry@[i].0 == id@,
        forall|k: int| 0 <= k < i ==> (#[trigger] registry@[k]).0 != id@,
    ensures
        i == registry@.len() ==> r is Err && r->Err_0 is Registry,
        i < registry@.len() && r is Ok ==> schema_admits(
            settled(registry@[i].1),
            settled(payload@),
        ),
        i < registry@.len() && r is Err ==> r->Err_0 is Violation && r->Err_0->Violation_0.id@
            == id@,
{
    lemma_held_at(registry@, id@, i);
}

proof fn lemma_held_at(entries: Seq<(SchemaIdView, JsonView)>, id: SchemaIdView, i: int)
    requires
        0 <= i <= entries.len(),
        i < entries.len() ==> entries[i].0 == id,
        forall|k: int| 0 <= k < i ==> (#[trigger] entries[k]).0 != id,
    ensures
        held(entries, id) == if i < entries.len() {
            Some(entries[i].1)
        } else {
            None
        },
    decreases entries.len(),
{
    if entries.len() > 0 && i > 0 {
        let rest = entries.skip(1);
        assert(entries[0].0 != id);
        assert forall|k: int| 0 <= k < i - 1 implies (#[trigger] rest[k]).0 != id by {
            assert(rest[k] == entries[k + 1]);
        }
        lemma_held_at(rest, id, i - 1);
    }
}

/// A document registered is held under its id, and every other id holds what it did.
pub proof fn registering_adds_one_document(
    entries: Seq<(SchemaIdView, JsonView)>,
    id: SchemaIdView,
    document: JsonView,
    other: SchemaIdView,
)
    requires
        held(entries, id) is None,
    ensures
        held(placed(entries, id, document), id) == Some(document),
        other != id ==> held(placed(entries, id, document), other) == held(entries, other),
        placed(entries, id, document).len() == entries.len() + 1,
    decreases entries.len(),
{
    let one = seq![(id, document)];
    let out = placed(entries, id, document);
    if entries.len() == 0 {
        assert(out =~= one);
        assert(one.skip(1) =~= Seq::<(SchemaIdView, JsonView)>::empty());
        assert(one[0] == (id, document));
        reveal_with_fuel(held, 2);
    } else if id_before(id, entries[0].0) {
        assert(out =~= one + entries);
        assert(out.skip(1) =~= entries);
        assert(out[0] == (id, document));
    } else {
        let rest = entries.skip(1);
        registering_adds_one_document(rest, id, document, other);
        let more = placed(rest, id, document);
        assert(out =~= seq![entries[0]] + more);
        assert(out.skip(1) =~= more);
        assert(out[0] == entries[0]);
    }
}

} // verus!
