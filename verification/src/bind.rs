//! Binding a configuration to the layouts a process links: the queues, schemas,
//! authors and validators it comes to, or the key it is refused at.

use crate::author::{
    Allowlist, Author, NarrowingRefused, OpWord, Operation, narrowing_fault, or_none, with_word,
};
use crate::bundle::{lemma_registration_stops, registered_from, registration_refused};
use crate::config::{
    AuthorConfig, Config, ConfigError, ConfiguredAuthor, QueueConfig, queue_applied,
};
use crate::json::{Json, JsonView};
use crate::layout::{declared_grants, declared_reason, first_word, first_word_of};
use crate::names::QueueName;
use crate::policy::{Policy, QueueSpec, QueueSpecView, bare_spec, plain_policy, specs_view};
use crate::prepare::{LinkedLayout, outcome_view, prepares, preparing_at, steps_for};
use crate::schema::{
    Registry, RegistryError, SchemaIdView, held, id_text, id_words, registry_error_words,
};
use crate::table::{
    Table, in_order, lemma_lookup_at, lemma_lookup_has, lemma_lookup_inserted,
    lemma_lookup_removed, lemma_lookup_some, lemma_lookup_take, lookup,
};
use crate::text::{
    blank, cat3, cat4, holds_text, is_blank, join, joined, lemma_before_irreflexive, same_text,
    text_before, texts,
};
use vstd::prelude::*;

verus! {

/// The reason an operation a configuration narrowed away is refused with.
pub const NARROWED: &'static str = "the configuration does not grant it";

// ---------------------------------------------------------------------------
// Layouts.
// ---------------------------------------------------------------------------

/// A set of queues, authors, operations and schemas declared under one name,
/// which a configuration names as its profile, and what becomes of an offer.
pub trait Layout {
    /// Its name.
    spec fn name_is(&self) -> Seq<char>;

    /// Its queues.
    spec fn queues_are(&self) -> Seq<QueueSpecView>;

    /// Its operations.
    spec fn ops_are(&self) -> Seq<Seq<char>>;

    /// What it grants an author; nothing for one it does not declare.
    spec fn grants_to(&self, author: Seq<char>) -> Option<Seq<Seq<char>>>;

    /// Why it refuses an author an operation, where it says.
    spec fn reason_is(&self, author: Seq<char>, op: Seq<char>) -> Option<Seq<char>>;

    /// Its schemas.
    spec fn schemas_are(&self) -> Seq<(SchemaIdView, JsonView)>;

    /// What may become of an offer.
    spec fn may_prepare(
        &self,
        queue: Seq<char>,
        record: JsonView,
        allowlist: Allowlist<OpWord>,
        outcome: Result<Seq<(Seq<char>, JsonView)>, Seq<char>>,
    ) -> bool;

    /// The name a configuration's profile gives.
    fn name(&self) -> (r: String)
        ensures
            r@ == self.name_is(),
    ;

    /// The queues it declares.
    fn queues(&self) -> (r: Vec<QueueSpec>)
        ensures
            specs_view(r@) == self.queues_are(),
    ;

    /// Its authors and what each may carry, over its operations.
    fn allowlist(&self) -> (r: Allowlist<OpWord>)
        ensures
            r.ops() == self.ops_are(),
            forall|a: Seq<char>| #[trigger] r.granted_to(a) == self.grants_to(a),
            forall|a: Seq<char>, op: Seq<char>| #[trigger]
                r.reason_for(a, op) == self.reason_is(a, op),
    ;

    /// The schemas its queues name.
    fn registry(&self) -> (r: Registry)
        ensures
            r@ == self.schemas_are(),
    ;

    /// The records an offer to `queue` becomes, in the order they are pushed.
    fn prepare(&self, queue: &QueueName, record: &Json, allowlist: &Allowlist<OpWord>) -> (r:
        Result<Vec<(QueueName, Json)>, String>)
        ensures
            self.may_prepare(queue@, record@, *allowlist, outcome_view(r)),
    ;
}

impl Layout for LinkedLayout {
    open spec fn name_is(&self) -> Seq<char> {
        self.parts().name
    }

    open spec fn queues_are(&self) -> Seq<QueueSpecView> {
        self.parts().queues
    }

    open spec fn ops_are(&self) -> Seq<Seq<char>> {
        self.parts().operations
    }

    open spec fn grants_to(&self, author: Seq<char>) -> Option<Seq<Seq<char>>> {
        declared_grants(self.parts(), author)
    }

    open spec fn reason_is(&self, author: Seq<char>, op: Seq<char>) -> Option<Seq<char>> {
        declared_reason(self.parts(), author, op)
    }

    open spec fn schemas_are(&self) -> Seq<(SchemaIdView, JsonView)> {
        self.schemas()
    }

    open spec fn may_prepare(
        &self,
        queue: Seq<char>,
        record: JsonView,
        allowlist: Allowlist<OpWord>,
        outcome: Result<Seq<(Seq<char>, JsonView)>, Seq<char>>,
    ) -> bool {
        exists|now: u64|
            prepares(
                (#[trigger] preparing_at(queue, self.schemas(), allowlist, now)),
                steps_for(self.parts(), queue),
                0,
                record,
                None,
                outcome,
            )
    }

    fn name(&self) -> (r: String) {
        self.document().name().as_str().to_owned()
    }

    fn queues(&self) -> (r: Vec<QueueSpec>) {
        copied_specs(self.document().queues())
    }

    fn allowlist(&self) -> (r: Allowlist<OpWord>) {
        self.document().allowlist()
    }

    fn registry(&self) -> (r: Registry) {
        self.schema_registry().copied()
    }

    fn prepare(&self, queue: &QueueName, record: &Json, allowlist: &Allowlist<OpWord>) -> (r:
        Result<Vec<(QueueName, Json)>, String>) {
        self.prepare_now(queue, record, allowlist)
    }
}

/// A copy of declared queues.
pub fn copied_specs(specs: &Vec<QueueSpec>) -> (r: Vec<QueueSpec>)
    ensures
        specs_view(r@) == specs_view(specs@),
{
    let mut out: Vec<QueueSpec> = Vec::new();
    let mut i: usize = 0;
    while i < specs.len()
        invariant
            i <= specs@.len(),
            specs_view(out@) =~= specs_view(specs@).take(i as int),
        decreases specs@.len() - i,
    {
        let ghost before = specs_view(out@);
        out.push(specs[i].copied());
        proof {
            assert(specs_view(out@) =~= before.push(specs@[i as int]@));
        }
        i += 1;
    }
    proof {
        assert(specs_view(out@) =~= specs_view(specs@));
    }
    out
}

/// The layouts a process links.
pub struct Layouts<L: Layout> {
    each: Vec<L>,
}

impl<L: Layout> View for Layouts<L> {
    type V = Seq<L>;

    closed spec fn view(&self) -> Seq<L> {
        self.each@
    }
}

/// The names of layouts.
pub open spec fn layout_names<L: Layout>(layouts: Seq<L>) -> Seq<Seq<char>> {
    Seq::new(layouts.len(), |i: int| layouts[i].name_is())
}

/// The first layout of a name.
pub open spec fn layout_named<L: Layout>(layouts: Seq<L>, name: Seq<char>) -> Option<L> {
    match first_word(layout_names(layouts), name) {
        Some(at) => Some(layouts[at]),
        None => None,
    }
}

impl<L: Layout> Layouts<L> {
    /// No layouts.
    pub fn new() -> (r: Self)
        ensures
            r@ == Seq::<L>::empty(),
    {
        Layouts { each: Vec::new() }
    }

    /// The same set, with `layout` added.
    pub fn with(self, layout: L) -> (r: Self)
        ensures
            r@ == self@.push(layout),
    {
        let mut each = self.each;
        each.push(layout);
        Layouts { each }
    }

    /// Every layout's name.
    pub fn names(&self) -> (r: Vec<String>)
        ensures
            texts(r@) == layout_names(self@),
    {
        let mut out: Vec<String> = Vec::new();
        let mut i: usize = 0;
        while i < self.each.len()
            invariant
                i <= self.each@.len(),
                texts(out@) =~= layout_names(self@).take(i as int),
            decreases self.each@.len() - i,
        {
            let ghost before = texts(out@);
            out.push(self.each[i].name());
            proof {
                assert(texts(out@) =~= before.push(self.each@[i as int].name_is()));
            }
            i += 1;
        }
        proof {
            assert(texts(out@) =~= layout_names(self@));
        }
        out
    }

    /// The first layout named `name`.
    pub fn get(&self, name: &str) -> (r: Option<&L>)
        ensures
            match r {
                Some(layout) => layout_named(self@, name@) == Some(*layout),
                None => layout_named(self@, name@) is None,
            },
    {
        let names = self.names();
        match first_word_of(&names, name) {
            Some(at) => {
                proof {
                    assert(texts(names@).len() == names@.len());
                }
                Some(&self.each[at])
            },
            None => None,
        }
    }
}

// ---------------------------------------------------------------------------
// Queues.
// ---------------------------------------------------------------------------

/// The last of declared queues that has a name.
pub open spec fn last_spec(specs: Seq<QueueSpecView>, name: Seq<char>) -> Option<QueueSpecView>
    decreases specs.len(),
{
    if specs.len() == 0 {
        None
    } else if specs.last().name == name {
        Some(specs.last())
    } else {
        last_spec(specs.drop_last(), name)
    }
}

/// The queues an optional layout declares.
pub open spec fn layout_specs<L: Layout>(layout: Option<L>) -> Seq<QueueSpecView> {
    match layout {
        Some(layout) => layout.queues_are(),
        None => Seq::empty(),
    }
}

/// What a queue of a configuration is: the layout's, or a plain one, with the
/// keys the configuration sets.
pub open spec fn configured_queue(
    base: Option<QueueSpecView>,
    queue: Option<QueueConfig>,
    name: Seq<char>,
) -> Option<QueueSpecView> {
    match queue {
        None => base,
        Some(queue) => Some(
            queue_applied(
                queue,
                match base {
                    Some(spec_of) => spec_of,
                    None => bare_spec(name, plain_policy()),
                },
            ),
        ),
    }
}

/// The queue a table holds under a name.
pub open spec fn spec_under(queues: Seq<(Seq<char>, QueueSpec)>, name: Seq<char>) -> Option<
    QueueSpecView,
> {
    match lookup(queues, name) {
        Some(kept) => Some(kept@),
        None => None,
    }
}

/// Whether each queue is under its own name.
pub open spec fn under_own_names(queues: Seq<(Seq<char>, QueueSpec)>) -> bool {
    forall|name: Seq<char>| #[trigger]
        spec_under(queues, name) is Some ==> spec_under(queues, name)->0.name == name
}

/// Whether each queue and author of a configuration is under its own name.
pub open spec fn is_well_named(config: Config) -> bool {
    &&& forall|name: Seq<char>| #[trigger]
        lookup(config.queues@, name) is Some ==> lookup(config.queues@, name)->0.name@ == name
    &&& forall|name: Seq<char>| #[trigger]
        lookup(config.authors@, name) is Some ==> lookup(config.authors@, name)->0.author@ == name
}

impl Config {
    /// Whether each queue and author is under its own name, as it is in a configuration
    /// that was read.
    pub fn well_named(&self) -> (r: bool)
        ensures
            r == is_well_named(*self),
    {
        self.queues.ordered();
        self.authors.ordered();
        let mut i: usize = 0;
        while i < self.queues.len()
            invariant
                i <= self.queues@.len(),
                in_order(self.queues@),
                forall|k: int|
                    0 <= k < i ==> (#[trigger] self.queues@[k]).1.name@ == self.queues@[k].0,
            decreases self.queues@.len() - i,
        {
            if !same_text(self.queues.value_at(i).name.as_str(), self.queues.name_at(i)) {
                proof {
                    lemma_lookup_at(self.queues@, i as int);
                    assert(lookup(self.queues@, self.queues@[i as int].0) is Some);
                }
                return false;
            }
            i += 1;
        }
        let mut j: usize = 0;
        while j < self.authors.len()
            invariant
                j <= self.authors@.len(),
                in_order(self.authors@),
                forall|k: int|
                    0 <= k < j ==> (#[trigger] self.authors@[k]).1.author@ == self.authors@[k].0,
            decreases self.authors@.len() - j,
        {
            if !same_text(self.authors.value_at(j).author.as_str(), self.authors.name_at(j)) {
                proof {
                    lemma_lookup_at(self.authors@, j as int);
                    assert(lookup(self.authors@, self.authors@[j as int].0) is Some);
                }
                return false;
            }
            j += 1;
        }
        proof {
            assert forall|name: Seq<char>| #[trigger]
                lookup(self.queues@, name) is Some implies lookup(self.queues@, name)->0.name@
                == name by {
                let at = lemma_lookup_has(self.queues@, name);
                lemma_lookup_at(self.queues@, at);
            }
            assert forall|name: Seq<char>| #[trigger]
                lookup(self.authors@, name) is Some implies lookup(self.authors@, name)->0.author@
                == name by {
                let at = lemma_lookup_has(self.authors@, name);
                lemma_lookup_at(self.authors@, at);
            }
        }
        true
    }
}

/// Whether queues are the ones a configuration comes to over a layout's, in name
/// order.
pub open spec fn are_queues_of(
    queues: Seq<(Seq<char>, QueueSpec)>,
    base: Seq<QueueSpecView>,
    configured: Seq<(Seq<char>, QueueConfig)>,
) -> bool {
    &&& in_order(queues)
    &&& under_own_names(queues)
    &&& forall|name: Seq<char>| #[trigger]
        spec_under(queues, name) == configured_queue(
            last_spec(base, name),
            lookup(configured, name),
            name,
        )
}

fn base_queues(specs: Vec<QueueSpec>) -> (r: Table<QueueSpec>)
    ensures
        under_own_names(r@),
        forall|name: Seq<char>| #[trigger]
            spec_under(r@, name) == last_spec(specs_view(specs@), name),
{
    let ghost all = specs_view(specs@);
    let count: usize = specs.len();
    let mut out: Table<QueueSpec> = Table::new();
    let mut i: usize = 0;
    proof {
        assert(all.take(0) =~= Seq::<QueueSpecView>::empty());
    }
    while i < count
        invariant
            i <= count == specs@.len(),
            all == specs_view(specs@),
            under_own_names(out@),
            forall|name: Seq<char>| #[trigger]
                spec_under(out@, name) == last_spec(all.take(i as int), name),
        decreases count - i,
    {
        out.ordered();
        let ghost before = out@;
        let kept = specs[i].copied();
        let name = specs[i].name.clone();
        let ghost key = name@;
        proof {
            assert(all.take(i + 1).drop_last() =~= all.take(i as int));
            assert(all.take(i + 1).last() == kept@);
            assert(key == kept@.name);
        }
        let ghost put = kept;
        out.insert(name.as_str(), kept);
        proof {
            assert forall|n: Seq<char>| #[trigger]
                spec_under(out@, n) == last_spec(all.take(i + 1), n) by {
                lemma_lookup_inserted(before, key, put, n);
                assert(spec_under(before, n) == last_spec(all.take(i as int), n));
            }
            assert forall|n: Seq<char>| #[trigger]
                spec_under(out@, n) is Some implies spec_under(out@, n)->0.name == n by {
                lemma_lookup_inserted(before, key, put, n);
                assert(spec_under(before, n) is Some ==> spec_under(before, n)->0.name == n);
            }
        }
        i += 1;
    }
    proof {
        assert(all.take(i as int) =~= all);
    }
    out
}

/// The queues a configuration comes to over a layout's.
pub(crate) fn bind_queues(specs: Vec<QueueSpec>, configured: &Table<QueueConfig>) -> (r: Table<QueueSpec>)
    requires
        forall|name: Seq<char>| #[trigger]
            lookup(configured@, name) is Some ==> lookup(configured@, name)->0.name@ == name,
    ensures
        are_queues_of(r@, specs_view(specs@), configured@),
{
    let ghost base = specs_view(specs@);
    let ghost all = configured@;
    let mut out = base_queues(specs);
    configured.ordered();
    let mut i: usize = 0;
    proof {
        assert(all.take(0) =~= Seq::<(Seq<char>, QueueConfig)>::empty());
        assert forall|name: Seq<char>| #[trigger]
            spec_under(out@, name) == configured_queue(
                last_spec(base, name),
                lookup(all.take(0), name),
                name,
            ) by {}
    }
    while i < configured.len()
        invariant
            i <= configured@.len(),
            all == configured@,
            in_order(all),
            forall|name: Seq<char>| #[trigger]
                lookup(all, name) is Some ==> lookup(all, name)->0.name@ == name,
            under_own_names(out@),
            forall|name: Seq<char>| #[trigger]
                spec_under(out@, name) == configured_queue(
                    last_spec(base, name),
                    lookup(all.take(i as int), name),
                    name,
                ),
        decreases configured@.len() - i,
    {
        out.ordered();
        let ghost start = out@;
        let queue = configured.value_at(i);
        let ghost key = all[i as int].0;
        proof {
            lemma_lookup_at(all, i as int);
            assert(lookup(all, key) == Some(*queue));
            lemma_lookup_take(all, i as int, key);
        }
        let kept = out.remove(queue.name.as_str());
        out.ordered();
        let ghost before = out@;
        let mut changed = match kept {
            Some(kept) => kept,
            None => QueueSpec::new(queue.name.clone(), Policy::default()),
        };
        proof {
            assert(spec_under(start, key) == configured_queue(
                last_spec(base, key),
                lookup(all.take(i as int), key),
                key,
            ));
            lemma_absent_before(all, i as int);
            assert(lookup(all.take(i as int), key) is None);
        }
        queue.apply(&mut changed);
        let ghost put = changed;
        out.insert(queue.name.as_str(), changed);
        proof {
            assert forall|n: Seq<char>| #[trigger]
                spec_under(out@, n) == configured_queue(
                    last_spec(base, n),
                    lookup(all.take(i + 1), n),
                    n,
                ) by {
                lemma_lookup_inserted(before, key, put, n);
                lemma_lookup_removed(start, key, n);
                lemma_lookup_take(all, i as int, n);
                assert(spec_under(start, n) == configured_queue(
                    last_spec(base, n),
                    lookup(all.take(i as int), n),
                    n,
                ));
            }
            assert forall|n: Seq<char>| #[trigger]
                spec_under(out@, n) is Some implies spec_under(out@, n)->0.name == n by {
                lemma_lookup_inserted(before, key, put, n);
                lemma_lookup_removed(start, key, n);
                assert(spec_under(start, n) is Some ==> spec_under(start, n)->0.name == n);
                assert(spec_under(start, key) is Some ==> spec_under(start, key)->0.name == key);
            }
        }
        i += 1;
    }
    out.ordered();
    proof {
        assert(all.take(i as int) =~= all);
    }
    out
}

/// A name in order is not among the names before it.
pub proof fn lemma_absent_before<V>(entries: Seq<(Seq<char>, V)>, i: int)
    requires
        in_order(entries),
        0 <= i < entries.len(),
    ensures
        lookup(entries.take(i), entries[i].0) is None,
{
    let before = entries.take(i);
    let key = entries[i].0;
    if lookup(before, key) is Some {
        lemma_lookup_some(before, key);
        let at = choose|at: int| 0 <= at < before.len() && before[at].0 == key;
        assert(text_before(entries[at].0, entries[i].0));
        lemma_before_irreflexive(key);
    }
}

/// What is wrong with a queue: its key, and why.
pub open spec fn queue_fault(
    queue: QueueSpecView,
    queues: Seq<(Seq<char>, QueueSpec)>,
    schemas: Seq<(SchemaIdView, JsonView)>,
) -> Option<(Seq<char>, Seq<char>)> {
    if queue.schema is Some && held(schemas, queue.schema->0) is None {
        Some(
            (
                "queues."@ + queue.name + ".schema"@,
                id_text(queue.schema->0)
                    + " is not a schema this layout registers; it registers: "@ + joined(
                    id_words(schemas),
                    ", "@,
                ),
            ),
        )
    } else if queue.answers is Some && lookup(queues, queue.answers->0) is None {
        Some(
            (
                "queues."@ + queue.name + ".answers"@,
                "`"@ + queue.answers->0 + "` is not a queue this configuration declares"@,
            ),
        )
    } else {
        None
    }
}

/// What is wrong with the first queue from `from` on, in name order.
pub open spec fn queues_fault(
    queues: Seq<(Seq<char>, QueueSpec)>,
    schemas: Seq<(SchemaIdView, JsonView)>,
    from: int,
) -> Option<(Seq<char>, Seq<char>)>
    decreases queues.len() - from,
{
    if from < 0 || from >= queues.len() {
        None
    } else {
        match queue_fault(queues[from].1@, queues, schemas) {
            Some(fault) => Some(fault),
            None => queues_fault(queues, schemas, from + 1),
        }
    }
}

/// Whether an error is that of a key.
pub open spec fn key_refused(error: ConfigError, fault: (Seq<char>, Seq<char>)) -> bool {
    match error {
        ConfigError::Queue { key, why } => key@ == fault.0 && why@ == fault.1,
        _ => false,
    }
}

pub(crate) fn check_queues(queues: &Table<QueueSpec>, registry: &Registry) -> (r: Result<(), ConfigError>)
    ensures
        match r {
            Ok(()) => queues_fault(queues@, registry@, 0) is None,
            Err(e) => queues_fault(queues@, registry@, 0) is Some && key_refused(
                e,
                queues_fault(queues@, registry@, 0)->0,
            ),
        },
{
    let mut i: usize = 0;
    while i < queues.len()
        invariant
            i <= queues@.len(),
            queues_fault(queues@, registry@, 0) == queues_fault(queues@, registry@, i as int),
        decreases queues@.len() - i,
    {
        let queue = queues.value_at(i);
        if let Some(schema) = &queue.schema {
            if registry.schema(schema).is_none() {
                let id = schema.to_text();
                let ids = registry.id_texts();
                let known = join(&ids, ", ");
                return Err(
                    ConfigError::Queue {
                        key: cat3("queues.", queue.name.as_str(), ".schema"),
                        why: cat3(
                            id.as_str(),
                            " is not a schema this layout registers; it registers: ",
                            known.as_str(),
                        ),
                    },
                );
            }
        }
        if let Some(answers) = &queue.answers {
            if queues.get(answers.as_str()).is_none() {
                return Err(
                    ConfigError::Queue {
                        key: cat3("queues.", queue.name.as_str(), ".answers"),
                        why: cat3(
                            "`",
                            answers.as_str(),
                            "` is not a queue this configuration declares",
                        ),
                    },
                );
            }
        }
        i += 1;
    }
    Ok(())
}

// ---------------------------------------------------------------------------
// Schemas.
// ---------------------------------------------------------------------------

/// Whether an error is the registry's, refusing what is added at `at`.
pub open spec fn registry_refused(
    error: ConfigError,
    base: Seq<(SchemaIdView, JsonView)>,
    added: Seq<(SchemaIdView, JsonView)>,
    at: int,
) -> bool {
    &&& 0 <= at < added.len()
    &&& registered_from(base, added.take(at)) is Ok
    &&& exists|refused: RegistryError|
        {
            &&& #[trigger] registration_refused(
                registered_from(base, added.take(at))->Ok_0,
                added[at],
                refused,
            )
            &&& key_refused(error, ("registry"@, registry_error_words(refused)))
        }
}

pub(crate) fn bind_registry(base: Registry, added: &Registry) -> (r: Result<Registry, ConfigError>)
    ensures
        match r {
            Ok(registry) => registered_from(base@, added@) == Ok::<
                Seq<(SchemaIdView, JsonView)>,
                int,
            >(registry@),
            Err(e) => registered_from(base@, added@) is Err && registry_refused(
                e,
                base@,
                added@,
                registered_from(base@, added@)->Err_0,
            ),
        },
{
    let ghost start = base@;
    let ghost all = added@;
    let mut registry = base;
    let mut i: usize = 0;
    proof {
        assert(all.take(0) =~= Seq::<(SchemaIdView, JsonView)>::empty());
    }
    while i < added.len()
        invariant
            i <= added@.len(),
            all == added@,
            start == base@,
            registered_from(start, all.take(i as int)) == Ok::<
                Seq<(SchemaIdView, JsonView)>,
                int,
            >(registry@),
        decreases added@.len() - i,
    {
        proof {
            assert(all.take(i + 1).drop_last() =~= all.take(i as int));
            assert(all.take(i + 1).last() == all[i as int]);
        }
        let ghost here = registry@;
        match registry.register_schema(added.id_at(i).copied(), added.document_at(i).copied()) {
            Ok(()) => {},
            Err(refused) => {
                let e = ConfigError::Queue {
                    key: "registry".to_owned(),
                    why: refused.message(),
                };
                proof {
                    assert(registered_from(start, all.take(i + 1)) == Err::<
                        Seq<(SchemaIdView, JsonView)>,
                        int,
                    >(i as int));
                    lemma_registration_stops(start, all, i + 1);
                    assert(registration_refused(
                        registered_from(start, all.take(i as int))->Ok_0,
                        all[i as int],
                        refused,
                    ));
                }
                return Err(e);
            },
        }
        i += 1;
    }
    proof {
        assert(all.take(i as int) =~= all);
    }
    Ok(registry)
}

// ---------------------------------------------------------------------------
// Authors.
// ---------------------------------------------------------------------------

/// What is said of the first word that is no operation.
pub open spec fn unknown_op(ops: Seq<Seq<char>>, words: Seq<Seq<char>>, from: int) -> Option<
    Seq<char>,
>
    decreases words.len() - from,
{
    if from < 0 || from >= words.len() {
        None
    } else if !ops.contains(words[from]) {
        Some("`"@ + words[from] + "` is not an op; the ops are: "@ + joined(ops, ", "@))
    } else {
        unknown_op(ops, words, from + 1)
    }
}

/// Words, each the first time it is given.
pub open spec fn granted_each(words: Seq<Seq<char>>) -> Seq<Seq<char>>
    decreases words.len(),
{
    if words.len() == 0 {
        Seq::empty()
    } else {
        with_word(granted_each(words.drop_last()), words.last())
    }
}

/// What is wrong with the first refusal from `from` on of an author granted
/// `capabilities`: its key, and why.
pub open spec fn refusals_fault(
    ops: Seq<Seq<char>>,
    author: Seq<char>,
    capabilities: Seq<Seq<char>>,
    refusals: Seq<(Seq<char>, String)>,
    from: int,
) -> Option<(Seq<char>, Seq<char>)>
    decreases refusals.len() - from,
{
    if from < 0 || from >= refusals.len() {
        None
    } else {
        let word = refusals[from].0;
        let key = "authors."@ + author + ".refusals."@ + word;
        if !ops.contains(word) {
            Some((key, "`"@ + word + "` is not an op"@))
        } else if capabilities.contains(word) {
            Some((key, "a granted op may not have a refusal"@))
        } else if is_blank(refusals[from].1@) {
            Some((key, "a refusal reason must be non-empty text"@))
        } else {
            refusals_fault(ops, author, capabilities, refusals, from + 1)
        }
    }
}

/// What is wrong with what a configuration says of an author `granted` what it
/// was: its key, and why.
pub open spec fn configured_author_fault(
    ops: Seq<Seq<char>>,
    granted: Option<Seq<Seq<char>>>,
    author: Seq<char>,
    config: AuthorConfig,
) -> Option<(Seq<char>, Seq<char>)> {
    let capabilities = texts(config.capabilities@);
    let granting = match granted {
        Some(granted) => narrowing_fault(ops, granted, author, capabilities),
        None => unknown_op(ops, capabilities, 0),
    };
    match granting {
        Some(why) => Some(("authors."@ + author + ".capabilities"@, why)),
        None => refusals_fault(ops, author, capabilities, config.refusals@, 0),
    }
}

/// What is wrong with the first author from `from` on.
pub open spec fn configured_authors_fault<L: Layout>(
    layout: Option<L>,
    authors: Seq<(Seq<char>, ConfiguredAuthor)>,
    from: int,
) -> Option<(Seq<char>, Seq<char>)>
    decreases authors.len() - from,
{
    if from < 0 || from >= authors.len() {
        None
    } else {
        match configured_author_fault(
            layout_ops(layout),
            layout_grants(layout, authors[from].0),
            authors[from].0,
            authors[from].1.config,
        ) {
            Some(fault) => Some(fault),
            None => configured_authors_fault(layout, authors, from + 1),
        }
    }
}

/// The operations an optional layout declares.
pub open spec fn layout_ops<L: Layout>(layout: Option<L>) -> Seq<Seq<char>> {
    match layout {
        Some(layout) => layout.ops_are(),
        None => Seq::empty(),
    }
}

/// What an optional layout grants an author.
pub open spec fn layout_grants<L: Layout>(layout: Option<L>, author: Seq<char>) -> Option<
    Seq<Seq<char>>,
> {
    match layout {
        Some(layout) => layout.grants_to(author),
        None => None,
    }
}

/// Why an optional layout refuses an author an operation.
pub open spec fn layout_reason<L: Layout>(
    layout: Option<L>,
    author: Seq<char>,
    op: Seq<char>,
) -> Option<Seq<char>> {
    match layout {
        Some(layout) => layout.reason_is(author, op),
        None => None,
    }
}

/// What an author is granted once a configuration is bound.
pub open spec fn bound_grants(
    granted: Option<Seq<Seq<char>>>,
    configured: Option<ConfiguredAuthor>,
) -> Option<Seq<Seq<char>>> {
    match configured {
        None => granted,
        Some(configured) => Some(
            match granted {
                Some(_) => texts(configured.config.capabilities@),
                None => granted_each(texts(configured.config.capabilities@)),
            },
        ),
    }
}

/// Why an author is refused an operation once a configuration is bound: what the
/// configuration says, that it narrowed the operation away, or what the layout
/// said.
pub open spec fn bound_reason(
    granted: Option<Seq<Seq<char>>>,
    reason: Option<Seq<char>>,
    configured: Option<ConfiguredAuthor>,
    op: Seq<char>,
) -> Option<Seq<char>> {
    match configured {
        None => reason,
        Some(configured) => match lookup(configured.config.refusals@, op) {
            Some(said) => Some(said@),
            None => match granted {
                Some(granted) if granted.contains(op) && !texts(
                    configured.config.capabilities@,
                ).contains(op) => Some(NARROWED@),
                _ => reason,
            },
        },
    }
}

/// Whether an allowlist is what authors come to over a layout's.
pub open spec fn are_grants_of<L: Layout>(
    list: Allowlist<OpWord>,
    layout: Option<L>,
    authors: Seq<(Seq<char>, ConfiguredAuthor)>,
) -> bool {
    &&& list.ops() == layout_ops(layout)
    &&& forall|a: Seq<char>| #[trigger]
        list.granted_to(a) == bound_grants(layout_grants(layout, a), lookup(authors, a))
    &&& forall|a: Seq<char>, op: Seq<char>| #[trigger]
        list.reason_for(a, op) == bound_reason(
            layout_grants(layout, a),
            layout_reason(layout, a, op),
            lookup(authors, a),
            op,
        )
}

/// Whether an error is that of a grant a configuration may not make.
pub open spec fn grant_refused(error: ConfigError, fault: (Seq<char>, Seq<char>)) -> bool {
    match error {
        ConfigError::Narrowing(refused) => refused.key@ == fault.0 && refused.why@ == fault.1,
        _ => false,
    }
}

fn refused_grant(key: String, why: String) -> (r: ConfigError)
    ensures
        grant_refused(r, (key@, why@)),
{
    ConfigError::Narrowing(NarrowingRefused { key, why })
}

/// Declares an author and grants it each of `capabilities`.
fn grant_new(list: &mut Allowlist<OpWord>, author: &Author, capabilities: &Vec<String>) -> (r:
    Result<(), String>)
    requires
        old(list).granted_to(author@) is None,
    ensures
        final(list).differs_only_at(old(list), author@),
        forall|w: Seq<char>| #[trigger]
            final(list).reason_for(author@, w) == old(list).reason_for(author@, w),
        match r {
            Ok(()) => {
                &&& unknown_op(old(list).ops(), texts(capabilities@), 0) is None
                &&& final(list).granted_to(author@) == Some(granted_each(texts(capabilities@)))
            },
            Err(why) => unknown_op(old(list).ops(), texts(capabilities@), 0) == Some(why@),
        },
{
    let ghost start = *list;
    let ghost all = texts(capabilities@);
    list.declare(author);
    let mut i: usize = 0;
    proof {
        assert(all.take(0) =~= Seq::<Seq<char>>::empty());
        assert(or_none(start.granted_to(author@)) =~= Seq::<Seq<char>>::empty());
    }
    while i < capabilities.len()
        invariant
            i <= capabilities@.len(),
            all == texts(capabilities@),
            start == *old(list),
            list.differs_only_at(&start, author@),
            forall|w: Seq<char>| #[trigger]
                list.reason_for(author@, w) == start.reason_for(author@, w),
            list.granted_to(author@) == Some(granted_each(all.take(i as int))),
            unknown_op(start.ops(), all, 0) == unknown_op(start.ops(), all, i as int),
        decreases capabilities@.len() - i,
    {
        let word = capabilities[i].as_str();
        proof {
            assert(all[i as int] == word@);
            assert(all.take(i + 1).drop_last() =~= all.take(i as int));
            assert(all.take(i + 1).last() == word@);
        }
        let op: OpWord = match list.op(word) {
            Some(op) => op.copied(),
            None => {
                let known = list.op_list();
                return Err(cat4("`", word, "` is not an op; the ops are: ", known.as_str()));
            },
        };
        let ghost before = *list;
        list.grant(author, op);
        proof {
            assert forall|a: Seq<char>| a != author@ implies #[trigger] list.granted_to(a)
                == start.granted_to(a) by {
                assert(before.granted_to(a) == start.granted_to(a));
            }
            assert forall|a: Seq<char>, w: Seq<char>| a != author@ implies #[trigger] list.reason_for(
                a,
                w,
            ) == start.reason_for(a, w) by {
                assert(before.reason_for(a, w) == start.reason_for(a, w));
            }
            assert forall|w: Seq<char>| #[trigger]
                list.reason_for(author@, w) == start.reason_for(author@, w) by {
                assert(before.reason_for(author@, w) == start.reason_for(author@, w));
            }
        }
        i += 1;
    }
    proof {
        assert(all.take(i as int) =~= all);
    }
    Ok(())
}

/// Records why an author is refused each operation a configuration names.
fn refuse_each(list: &mut Allowlist<OpWord>, author: &Author, config: &AuthorConfig) -> (r: Result<
    (),
    ConfigError,
>)
    requires
        old(list).granted_to(author@) is Some,
    ensures
        final(list).differs_only_at(old(list), author@),
        match r {
            Ok(()) => {
                &&& refusals_fault(
                    old(list).ops(),
                    author@,
                    texts(config.capabilities@),
                    config.refusals@,
                    0,
                ) is None
                &&& final(list).granted_to(author@) == old(list).granted_to(author@)
                &&& forall|w: Seq<char>| #[trigger]
                    final(list).reason_for(author@, w) == match lookup(config.refusals@, w) {
                        Some(said) => Some(said@),
                        None => old(list).reason_for(author@, w),
                    }
            },
            Err(e) => {
                let fault = refusals_fault(
                    old(list).ops(),
                    author@,
                    texts(config.capabilities@),
                    config.refusals@,
                    0,
                );
                fault is Some && grant_refused(e, fault->0)
            },
        },
{
    let ghost start = *list;
    let ghost ops = list.ops();
    let ghost words = texts(config.capabilities@);
    let ghost all = config.refusals@;
    config.refusals.ordered();
    let mut i: usize = 0;
    proof {
        assert(all.take(0) =~= Seq::<(Seq<char>, String)>::empty());
    }
    while i < config.refusals.len()
        invariant
            i <= config.refusals@.len(),
            all == config.refusals@,
            in_order(all),
            words == texts(config.capabilities@),
            start == *old(list),
            ops == start.ops(),
            start.granted_to(author@) is Some,
            list.differs_only_at(&start, author@),
            list.granted_to(author@) == start.granted_to(author@),
            forall|w: Seq<char>| #[trigger]
                list.reason_for(author@, w) == match lookup(all.take(i as int), w) {
                    Some(said) => Some(said@),
                    None => start.reason_for(author@, w),
                },
            refusals_fault(ops, author@, words, all, 0) == refusals_fault(
                ops,
                author@,
                words,
                all,
                i as int,
            ),
        decreases config.refusals@.len() - i,
    {
        let word = config.refusals.name_at(i);
        let reason = config.refusals.value_at(i);
        let key = cat4("authors.", author.as_str(), ".refusals.", word);
        if list.op(word).is_none() {
            let why = cat3("`", word, "` is not an op");
            return Err(refused_grant(key, why));
        }
        if holds_text(&config.capabilities, word) {
            return Err(refused_grant(key, "a granted op may not have a refusal".to_owned()));
        }
        if blank(reason.as_str()) {
            return Err(
                refused_grant(key, "a refusal reason must be non-empty text".to_owned()),
            );
        }
        let ghost before = *list;
        list.refuse(author, &OpWord { word: word.to_owned() }, reason.as_str());
        proof {
            assert forall|a: Seq<char>| a != author@ implies #[trigger] list.granted_to(a)
                == start.granted_to(a) by {
                assert(before.granted_to(a) == start.granted_to(a));
            }
            assert forall|a: Seq<char>, w: Seq<char>| a != author@ implies #[trigger] list.reason_for(
                a,
                w,
            ) == start.reason_for(a, w) by {
                assert(before.reason_for(a, w) == start.reason_for(a, w));
            }
            assert forall|w: Seq<char>| #[trigger]
                list.reason_for(author@, w) == match lookup(all.take(i + 1), w) {
                    Some(said) => Some(said@),
                    None => start.reason_for(author@, w),
                } by {
                lemma_lookup_take(all, i as int, w);
                assert(before.reason_for(author@, w) == match lookup(all.take(i as int), w) {
                    Some(said) => Some(said@),
                    None => start.reason_for(author@, w),
                });
            }
        }
        i += 1;
    }
    proof {
        assert(all.take(i as int) =~= all);
    }
    Ok(())
}

/// Narrows or grants one author as a configuration says.
fn bind_author(list: &mut Allowlist<OpWord>, author: &Author, config: &AuthorConfig) -> (r: Result<
    (),
    ConfigError,
>)
    ensures
        final(list).differs_only_at(old(list), author@),
        match r {
            Ok(()) => {
                let granted = old(list).granted_to(author@);
                &&& configured_author_fault(old(list).ops(), granted, author@, *config) is None
                &&& final(list).granted_to(author@) == Some(
                    match granted {
                        Some(_) => texts(config.capabilities@),
                        None => granted_each(texts(config.capabilities@)),
                    },
                )
                &&& forall|w: Seq<char>| #[trigger]
                    final(list).reason_for(author@, w) == match lookup(config.refusals@, w) {
                        Some(said) => Some(said@),
                        None => match granted {
                            Some(granted) if granted.contains(w) && !texts(
                                config.capabilities@,
                            ).contains(w) => Some(NARROWED@),
                            _ => old(list).reason_for(author@, w),
                        },
                    }
            },
            Err(e) => {
                let fault = configured_author_fault(
                    old(list).ops(),
                    old(list).granted_to(author@),
                    author@,
                    *config,
                );
                fault is Some && grant_refused(e, fault->0)
            },
        },
{
    let ghost start = *list;
    let key = cat3("authors.", author.as_str(), ".capabilities");
    if list.declares(author) {
        match list.narrow(key.as_str(), author, &config.capabilities, NARROWED) {
            Ok(()) => {},
            Err(refused) => return Err(ConfigError::Narrowing(refused)),
        }
    } else {
        match grant_new(list, author, &config.capabilities) {
            Ok(()) => {},
            Err(why) => return Err(refused_grant(key, why)),
        }
    }
    let ghost mid = *list;
    let r = refuse_each(list, author, config);
    proof {
        assert forall|a: Seq<char>| a != author@ implies #[trigger] list.granted_to(a)
            == start.granted_to(a) by {
            assert(mid.granted_to(a) == start.granted_to(a));
        }
        assert forall|a: Seq<char>, w: Seq<char>| a != author@ implies #[trigger] list.reason_for(
            a,
            w,
        ) == start.reason_for(a, w) by {
            assert(mid.reason_for(a, w) == start.reason_for(a, w));
        }
        if r is Ok {
            assert forall|w: Seq<char>| #[trigger]
                list.reason_for(author@, w) == match lookup(config.refusals@, w) {
                    Some(said) => Some(said@),
                    None => match start.granted_to(author@) {
                        Some(granted) if granted.contains(w) && !texts(
                            config.capabilities@,
                        ).contains(w) => Some(NARROWED@),
                        _ => start.reason_for(author@, w),
                    },
                } by {
                let between = mid.reason_for(author@, w);
            }
        }
    }
    r
}

/// The grants authors come to over a layout's.
pub(crate) fn bind_authors<L: Layout>(layout: Option<&L>, authors: &Table<ConfiguredAuthor>) -> (r: Result<
    Allowlist<OpWord>,
    ConfigError,
>)
    requires
        forall|name: Seq<char>| #[trigger]
            lookup(authors@, name) is Some ==> lookup(authors@, name)->0.author@ == name,
    ensures
        match r {
            Ok(list) => configured_authors_fault(by_value(layout), authors@, 0) is None && are_grants_of(
                list,
                by_value(layout),
                authors@,
            ),
            Err(e) => {
                let fault = configured_authors_fault(by_value(layout), authors@, 0);
                fault is Some && grant_refused(e, fault->0)
            },
        },
{
    let ghost over = by_value(layout);
    let ghost all = authors@;
    authors.ordered();
    let mut list: Allowlist<OpWord> = match layout {
        Some(layout) => layout.allowlist(),
        None => {
            let none: Vec<OpWord> = Vec::new();
            let list = Allowlist::new(none);
            proof {
                assert(list.ops() =~= layout_ops::<L>(None));
            }
            list
        },
    };
    let mut i: usize = 0;
    proof {
        assert(all.take(0) =~= Seq::<(Seq<char>, ConfiguredAuthor)>::empty());
        assert(are_grants_of(list, over, all.take(0)));
    }
    while i < authors.len()
        invariant
            i <= authors@.len(),
            all == authors@,
            over == by_value(layout),
            in_order(all),
            forall|name: Seq<char>| #[trigger]
                lookup(all, name) is Some ==> lookup(all, name)->0.author@ == name,
            are_grants_of(list, over, all.take(i as int)),
            configured_authors_fault(over, all, 0) == configured_authors_fault(over, all, i as int),
        decreases authors@.len() - i,
    {
        let configured = authors.value_at(i);
        let ghost key = all[i as int].0;
        let ghost before = list;
        proof {
            lemma_lookup_at(all, i as int);
            assert(lookup(all, key) == Some(*configured));
            lemma_absent_before(all, i as int);
            assert(before.granted_to(key) == layout_grants(over, key));
        }
        match bind_author(&mut list, &configured.author, &configured.config) {
            Ok(()) => {},
            Err(e) => return Err(e),
        }
        proof {
            assert forall|a: Seq<char>| #[trigger]
                list.granted_to(a) == bound_grants(
                    layout_grants(over, a),
                    lookup(all.take(i + 1), a),
                ) by {
                lemma_lookup_take(all, i as int, a);
                assert(before.granted_to(a) == bound_grants(
                    layout_grants(over, a),
                    lookup(all.take(i as int), a),
                ));
            }
            assert forall|a: Seq<char>, op: Seq<char>| #[trigger]
                list.reason_for(a, op) == bound_reason(
                    layout_grants(over, a),
                    layout_reason(over, a, op),
                    lookup(all.take(i + 1), a),
                    op,
                ) by {
                lemma_lookup_take(all, i as int, a);
                assert(before.reason_for(a, op) == bound_reason(
                    layout_grants(over, a),
                    layout_reason(over, a, op),
                    lookup(all.take(i as int), a),
                    op,
                ));
            }
        }
        i += 1;
    }
    proof {
        assert(all.take(i as int) =~= all);
    }
    Ok(list)
}

/// What an optional reference refers to.
pub open spec fn by_value<L>(layout: Option<&L>) -> Option<L> {
    match layout {
        Some(layout) => Some(*layout),
        None => None,
    }
}

} // verus!
