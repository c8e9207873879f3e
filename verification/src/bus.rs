//! A bound configuration: the one type that opens a queue or authors a record.

use crate::author::{Allowlist, OpWord, narrowing_fault};
use crate::bind::{
    Layout, Layouts, are_grants_of, are_queues_of, bind_authors, bind_queues, bind_registry,
    by_value, check_queues, configured_author_fault, configured_authors_fault, grant_refused,
    is_well_named, key_refused, last_spec, layout_grants, layout_named, layout_names, layout_ops,
    layout_specs, queues_fault, registry_refused, spec_under, under_own_names,
};
use crate::bundle::registered_from;
use crate::config::{
    Config, ConfigError, ConfiguredAuthor, QueueConfig, ValidatorConfig, built_from,
    validator_fault,
};
use crate::fold::{shape_is, shape_word};
use crate::json::{Json, JsonView};
use crate::names::QueueName;
use crate::policy::{QueueSpec, QueueSpecView, is_event_policy, specs_view};
use crate::predicate::{PredicateView, admits};
use crate::prepare::routed_view;
use crate::projection::ProjectionView;
use crate::queue::{
    Pushed, QueueError, RawQueue, queue_error_words, refused_with, stands_as, unjudged_with,
};
use crate::queue_ops::{push_refused, pushes};
use crate::schema::{Registry, SchemaIdView};
use crate::table::{Table, in_order, lemma_lookup_at, lemma_lookup_some, lookup, names_of};
use crate::text::{cat3, cat4, decimal, decimal_of, join, joined, same_text, texts};
use crate::transport::Transport;
use crate::validate::{
    CommandValidator, Verdict, VerdictView, When, combined_view, first_refusal, first_unjudged,
    when_asks,
};
use vstd::prelude::*;

verus! {

// ---------------------------------------------------------------------------
// Validators.
// ---------------------------------------------------------------------------

/// A validator of a queue: it judges only the messages its `when` admits.
#[derive(Debug)]
pub struct Gated {
    /// The queue whose offered messages it judges.
    pub on: QueueName,
    /// Which of them it judges; every one when absent.
    pub when: Option<When>,
    /// The command that judges; nothing for a validator that is code.
    pub validator: Option<CommandValidator>,
}

/// What an optional `when` asks.
pub open spec fn gate_asks(when: Option<When>) -> Option<PredicateView> {
    match when {
        Some(when) => Some(when_asks(when)),
        None => None,
    }
}

/// Whether a gate judges a record offered to a queue.
pub open spec fn gate_judges(gate: Gated, target: Seq<char>, record: JsonView) -> bool {
    gate.on@ == target && admits(gate_asks(gate.when), record)
}

impl Gated {
    /// Whether it judges `record`, offered to `target`.
    pub fn judges(&self, target: &QueueName, record: &Json) -> (r: bool)
        ensures
            r == gate_judges(*self, target@, record@),
    {
        if !same_text(self.on.as_str(), target.as_str()) {
            return false;
        }
        match &self.when {
            Some(when) => when.admits(record),
            None => true,
        }
    }
}

/// Whether gates are the ones a configuration declares, in order.
pub open spec fn are_gates_of(gates: Seq<Gated>, declared: Seq<ValidatorConfig>) -> bool {
    &&& gates.len() == declared.len()
    &&& forall|i: int|
        0 <= i < gates.len() ==> (#[trigger] gates[i]).on@ == declared[i].on@ && gate_asks(
            gates[i].when,
        ) == gate_asks(declared[i].when) && gates[i].validator is Some && built_from(
            gates[i].validator->0,
            declared[i],
        )
}

/// What is wrong with the first validator from `from` on: its key, and why.
pub open spec fn gates_fault(
    declared: Seq<ValidatorConfig>,
    queues: Seq<(Seq<char>, QueueSpec)>,
    from: int,
) -> Option<(Seq<char>, Seq<char>)>
    decreases declared.len() - from,
{
    if from < 0 || from >= declared.len() {
        None
    } else if lookup(queues, declared[from].on@) is None {
        Some(
            (
                "validators["@ + decimal(from as nat) + "].on"@,
                "`"@ + declared[from].on@
                    + "` is not a queue this configuration declares; it declares: "@ + joined(
                    names_of(queues),
                    ", "@,
                ),
            ),
        )
    } else {
        match validator_fault(declared[from], from as nat) {
            Some(why) => Some(("validators["@ + decimal(from as nat) + "]"@, why)),
            None => gates_fault(declared, queues, from + 1),
        }
    }
}

fn bind_gates(declared: &Vec<ValidatorConfig>, queues: &Table<QueueSpec>) -> (r: Result<
    Vec<Gated>,
    ConfigError,
>)
    ensures
        match r {
            Ok(gates) => gates_fault(declared@, queues@, 0) is None && are_gates_of(
                gates@,
                declared@,
            ),
            Err(e) => gates_fault(declared@, queues@, 0) is Some && key_refused(
                e,
                gates_fault(declared@, queues@, 0)->0,
            ),
        },
{
    let mut gates: Vec<Gated> = Vec::new();
    let mut i: usize = 0;
    while i < declared.len()
        invariant
            i <= declared@.len(),
            gates@.len() == i,
            forall|k: int|
                0 <= k < i ==> (#[trigger] gates@[k]).on@ == declared@[k].on@ && gate_asks(
                    gates@[k].when,
                ) == gate_asks(declared@[k].when) && gates@[k].validator is Some && built_from(
                    gates@[k].validator->0,
                    declared@[k],
                ),
            gates_fault(declared@, queues@, 0) == gates_fault(declared@, queues@, i as int),
        decreases declared@.len() - i,
    {
        let one = &declared[i];
        let index = decimal_of(i as u64);
        if queues.get(one.on.as_str()).is_none() {
            let names = queues.names();
            let known = join(&names, ", ");
            return Err(
                ConfigError::Queue {
                    key: cat3("validators[", index.as_str(), "].on"),
                    why: cat4(
                        "`",
                        one.on.as_str(),
                        "` is not a queue this configuration declares; it declares: ",
                        known.as_str(),
                    ),
                },
            );
        }
        match one.build(i) {
            Ok(validator) => {
                gates.push(
                    Gated {
                        on: one.on.clone(),
                        when: match &one.when {
                            Some(when) => Some(when.copied()),
                            None => None,
                        },
                        validator: Some(validator),
                    },
                );
            },
            Err(why) => return Err(
                ConfigError::Queue { key: cat3("validators[", index.as_str(), "]"), why },
            ),
        }
        i += 1;
    }
    Ok(gates)
}

// ---------------------------------------------------------------------------
// The bus.
// ---------------------------------------------------------------------------

/// Why a bus did not do what it was asked.
#[derive(Debug)]
pub enum BusError {
    /// A queue the configuration does not declare.
    UnknownQueue {
        /// The queue asked for.
        queue: QueueName,
        /// The queues there are.
        declared: String,
    },
    /// The layout refused the record.
    Refused {
        /// The queue it was offered to.
        queue: QueueName,
        /// The layout's words.
        why: String,
    },
    /// A queue no question can be asked or answered on.
    NotAskable {
        /// The queue.
        queue: QueueName,
        /// Why not.
        why: String,
    },
    /// A reply, or a listener, that binds to no question.
    Unbound {
        /// The queue whose questions were looked through.
        queue: QueueName,
        /// What was looked for, and what is there instead.
        why: String,
    },
    /// The queue refused it, or its transport failed.
    Queue(QueueError),
}

/// A refusal in words.
pub open spec fn bus_error_words(error: BusError) -> Seq<char> {
    match error {
        BusError::UnknownQueue { queue, declared } => "`"@ + queue@
            + "` is not a queue this configuration declares; it declares: "@ + declared@,
        BusError::Refused { queue, why } => queue@ + ": "@ + why@,
        BusError::NotAskable { queue, why } => queue@
            + " is not a queue a question is asked on: "@ + why@,
        BusError::Unbound { queue, why } => queue@ + ": "@ + why@,
        BusError::Queue(failure) => queue_error_words(failure),
    }
}

impl BusError {
    /// The refusal in words.
    pub fn message(&self) -> (r: String)
        ensures
            r@ == bus_error_words(*self),
    {
        match self {
            BusError::UnknownQueue { queue, declared } => cat4(
                "`",
                queue.as_str(),
                "` is not a queue this configuration declares; it declares: ",
                declared.as_str(),
            ),
            BusError::Refused { queue, why } => cat3(queue.as_str(), ": ", why.as_str()),
            BusError::NotAskable { queue, why } => cat3(
                queue.as_str(),
                " is not a queue a question is asked on: ",
                why.as_str(),
            ),
            BusError::Unbound { queue, why } => cat3(queue.as_str(), ": ", why.as_str()),
            BusError::Queue(failure) => failure.message(),
        }
    }
}

/// A bound configuration: its queues declared, its authors' grants narrowed, and
/// its schemas registered.
pub struct Bus<'a, L: Layout> {
    kind: String,
    layout: Option<&'a L>,
    queues: Table<QueueSpec>,
    allowlist: Allowlist<OpWord>,
    registry: Registry,
    gates: Vec<Gated>,
}

/// One record a validator is asked of, in the order they are asked.
#[derive(Debug)]
pub struct Asked {
    /// Which of the bus's validators.
    pub validator: usize,
    /// The queue the record is offered to.
    pub target: QueueName,
    /// The record.
    pub record: Json,
}

/// What validators are asked of.
pub open spec fn asked_view(asked: Seq<Asked>) -> Seq<(int, Seq<char>, JsonView)> {
    Seq::new(
        asked.len(),
        |i: int| (asked[i].validator as int, asked[i].target@, asked[i].record@),
    )
}

/// Which of the first `n` gates judge a record offered to `target`.
pub open spec fn asked_of(gates: Seq<Gated>, n: int, target: Seq<char>, record: JsonView) -> Seq<
    (int, Seq<char>, JsonView),
>
    decreases n,
{
    if n <= 0 || n > gates.len() {
        Seq::empty()
    } else {
        let before = asked_of(gates, n - 1, target, record);
        if gate_judges(gates[n - 1], target, record) {
            before.push((n - 1, target, record))
        } else {
            before
        }
    }
}

/// What is asked of an offer to `queue` and of the first `n` records it was
/// routed into: the offer by its queue's validators, then each record routed to
/// another queue by that queue's.
pub open spec fn asked_for(
    gates: Seq<Gated>,
    queue: Seq<char>,
    offered: JsonView,
    routed: Seq<(Seq<char>, JsonView)>,
    n: int,
) -> Seq<(int, Seq<char>, JsonView)>
    decreases n,
{
    if n <= 0 || n > routed.len() {
        asked_of(gates, gates.len() as int, queue, offered)
    } else {
        let before = asked_for(gates, queue, offered, routed, n - 1);
        if routed[n - 1].0 != queue {
            before + asked_of(gates, gates.len() as int, routed[n - 1].0, routed[n - 1].1)
        } else {
            before
        }
    }
}

/// Whether an error is that a queue is not one of `queues`.
pub open spec fn unknown_queue(
    error: BusError,
    name: Seq<char>,
    queues: Seq<(Seq<char>, QueueSpec)>,
) -> bool {
    match error {
        BusError::UnknownQueue { queue, declared } => queue@ == name && declared@ == joined(
            names_of(queues),
            ", "@,
        ),
        _ => false,
    }
}

/// Whether a record pushed onto a queue landed as `pushed`.
pub open spec fn landed<T: Transport>(
    queue: QueueSpecView,
    schemas: Seq<(SchemaIdView, JsonView)>,
    before: T,
    after: T,
    record: JsonView,
    pushed: Pushed<Json>,
) -> bool {
    exists|state: ProjectionView|
        (is_event_policy(queue.policy) ==> stands_as(queue, before, state)) && #[trigger] pushes(
            queue,
            schemas,
            before,
            after,
            state,
            record,
            pushed,
        )
}

/// Whether `error` is why a queue refuses a record.
pub open spec fn not_landed<T: Transport>(
    queue: QueueSpecView,
    schemas: Seq<(SchemaIdView, JsonView)>,
    before: T,
    record: JsonView,
    error: QueueError,
) -> bool {
    exists|state: ProjectionView|
        (is_event_policy(queue.policy) ==> stands_as(queue, before, state))
            && #[trigger] push_refused(queue, schemas, before, state, record, error)
}

/// Whether the first `n` records of an offer were pushed, in order, each onto its
/// queue.
pub open spec fn sent<T: Transport>(
    queues: Seq<(Seq<char>, QueueSpec)>,
    schemas: Seq<(SchemaIdView, JsonView)>,
    routed: Seq<(Seq<char>, JsonView)>,
    pushed: Seq<(Seq<char>, Pushed<Json>)>,
    n: int,
    before: T,
    after: T,
) -> bool
    decreases n,
{
    if n <= 0 {
        n == 0 && before == after
    } else {
        &&& n <= routed.len()
        &&& n <= pushed.len()
        &&& pushed[n - 1].0 == routed[n - 1].0
        &&& lookup(queues, routed[n - 1].0) is Some
        &&& exists|mid: T|
            {
                &&& sent(queues, schemas, routed, pushed, n - 1, before, mid)
                &&& #[trigger] landed(
                    lookup(queues, routed[n - 1].0)->0@,
                    schemas,
                    mid,
                    after,
                    routed[n - 1].1,
                    pushed[n - 1].1,
                )
            }
    }
}

/// What was pushed where.
pub open spec fn pushed_view(pushed: Seq<(QueueName, Pushed<Json>)>) -> Seq<
    (Seq<char>, Pushed<Json>),
> {
    Seq::new(pushed.len(), |i: int| (pushed[i].0@, pushed[i].1))
}

/// Whether an offer stopped at its record `n`, those before it pushed.
pub open spec fn stopped_at<T: Transport>(
    queues: Seq<(Seq<char>, QueueSpec)>,
    schemas: Seq<(SchemaIdView, JsonView)>,
    routed: Seq<(Seq<char>, JsonView)>,
    pushed: Seq<(Seq<char>, Pushed<Json>)>,
    n: int,
    before: T,
    after: T,
    error: BusError,
) -> bool {
    &&& 0 <= n < routed.len()
    &&& match error {
        BusError::UnknownQueue { .. } => sent(
            queues,
            schemas,
            routed,
            pushed,
            n,
            before,
            after,
        ) && lookup(queues, routed[n].0) is None && unknown_queue(error, routed[n].0, queues),
        BusError::Queue(QueueError::Transport(_)) => !before.reliable() && exists|mid: T| #[trigger]
            sent(queues, schemas, routed, pushed, n, before, mid),
        BusError::Queue(failure) => sent(queues, schemas, routed, pushed, n, before, after)
            && lookup(queues, routed[n].0) is Some && not_landed(
            lookup(queues, routed[n].0)->0@,
            schemas,
            after,
            routed[n].1,
            failure,
        ),
        _ => false,
    }
}

impl Config {
    /// Binds this configuration to the layouts a process links, with every schema
    /// `added` holds beside the layout's: the bus it describes, or the key it is
    /// refused at. The transport is the caller's to open, once every other key has
    /// been checked.
    pub fn bind<'a, L: Layout>(&self, layouts: &'a Layouts<L>, added: &Registry) -> (r: Result<
        Bus<'a, L>,
        ConfigError,
    >)
        requires
            is_well_named(*self),
        ensures
            match r {
                Ok(bus) => profile_known(*self, layouts@) && bus.is_bound(
                    *self,
                    profile_of(*self, layouts@),
                    added@,
                ),
                Err(e) => if profile_known(*self, layouts@) {
                    bind_refused(*self, profile_of(*self, layouts@), added@, e)
                } else {
                    match e {
                        ConfigError::Profile { name, known } => self.profile is Some && name@
                            == self.profile->0@ && known@ == joined(layout_names(layouts@), ", "@),
                        _ => false,
                    }
                },
            },
    {
        let layout: Option<&'a L> = match &self.profile {
            Some(name) => match layouts.get(name.as_str()) {
                Some(layout) => Some(layout),
                None => {
                    let names = layouts.names();
                    return Err(
                        ConfigError::Profile { name: name.clone(), known: join(&names, ", ") },
                    );
                },
            },
            None => None,
        };
        let ghost over = by_value(layout);
        proof {
            assert(profile_known(*self, layouts@));
            assert(over == profile_of(*self, layouts@));
        }
        let (specs, base) = match layout {
            Some(layout) => (layout.queues(), layout.registry()),
            None => (Vec::new(), Registry::new()),
        };
        proof {
            assert(specs_view(specs@) =~= layout_specs(over));
            assert(base@ =~= layout_schemas(over));
        }
        let queues = bind_queues(specs, &self.queues);
        proof {
            assert(are_queues_of(queues@, layout_specs(over), self.queues@));
        }
        let registry = match bind_registry(base, added) {
            Ok(registry) => registry,
            Err(e) => return Err(e),
        };
        proof {
            assert(registered_from(layout_schemas(over), added@) == Ok::<
                Seq<(SchemaIdView, JsonView)>,
                int,
            >(registry@));
        }
        match check_queues(&queues, &registry) {
            Ok(()) => {},
            Err(e) => {
                proof {
                    let schemas = registered_from(layout_schemas(over), added@)->Ok_0;
                    assert(refused_after(*self, over, schemas, queues@, e));
                    assert(bind_refused(*self, over, added@, e));
                }
                return Err(e);
            },
        }
        let allowlist = match bind_authors(layout, &self.authors) {
            Ok(allowlist) => allowlist,
            Err(e) => {
                proof {
                    let schemas = registered_from(layout_schemas(over), added@)->Ok_0;
                    assert(refused_after(*self, over, schemas, queues@, e));
                    assert(bind_refused(*self, over, added@, e));
                }
                return Err(e);
            },
        };
        let gates = match bind_gates(&self.validators, &queues) {
            Ok(gates) => gates,
            Err(e) => {
                proof {
                    let schemas = registered_from(layout_schemas(over), added@)->Ok_0;
                    assert(refused_after(*self, over, schemas, queues@, e));
                    assert(bind_refused(*self, over, added@, e));
                }
                return Err(e);
            },
        };
        Ok(Bus { kind: self.transport.kind.clone(), layout, queues, allowlist, registry, gates })
    }
}

/// Whether a configuration names no layout, or one that is linked.
pub open spec fn profile_known<L: Layout>(config: Config, layouts: Seq<L>) -> bool {
    config.profile is Some ==> layout_named(layouts, config.profile->0@) is Some
}

/// The layout a configuration names.
pub open spec fn profile_of<L: Layout>(config: Config, layouts: Seq<L>) -> Option<L> {
    match config.profile {
        Some(name) => layout_named(layouts, name@),
        None => None,
    }
}

/// The schemas an optional layout declares.
pub open spec fn layout_schemas<L: Layout>(layout: Option<L>) -> Seq<(SchemaIdView, JsonView)> {
    match layout {
        Some(layout) => layout.schemas_are(),
        None => Seq::empty(),
    }
}

/// Whether `error` is the first thing wrong with a configuration's queues, then
/// authors, then validators, over a layout and the schemas registered.
pub open spec fn refused_after<L: Layout>(
    config: Config,
    layout: Option<L>,
    schemas: Seq<(SchemaIdView, JsonView)>,
    queues: Seq<(Seq<char>, QueueSpec)>,
    error: ConfigError,
) -> bool {
    match queues_fault(queues, schemas, 0) {
        Some(fault) => key_refused(error, fault),
        None => match configured_authors_fault(layout, config.authors@, 0) {
            Some(fault) => grant_refused(error, fault),
            None => match gates_fault(config.validators@, queues, 0) {
                Some(fault) => key_refused(error, fault),
                None => false,
            },
        },
    }
}

/// Whether `error` is why a configuration does not bind to a layout.
pub open spec fn bind_refused<L: Layout>(
    config: Config,
    layout: Option<L>,
    added: Seq<(SchemaIdView, JsonView)>,
    error: ConfigError,
) -> bool {
    match registered_from(layout_schemas(layout), added) {
        Err(at) => registry_refused(error, layout_schemas(layout), added, at),
        Ok(schemas) => exists|queues: Seq<(Seq<char>, QueueSpec)>|
            are_queues_of(queues, layout_specs(layout), config.queues@) && #[trigger] refused_after(
                config,
                layout,
                schemas,
                queues,
                error,
            ),
    }
}

impl<'a, L: Layout> Bus<'a, L> {
    /// The declared queues, in name order.
    pub closed spec fn queues_are(&self) -> Seq<(Seq<char>, QueueSpec)> {
        self.queues@
    }

    /// The schemas.
    pub closed spec fn schemas(&self) -> Seq<(SchemaIdView, JsonView)> {
        self.registry@
    }

    /// The grants.
    pub closed spec fn grants(&self) -> Allowlist<OpWord> {
        self.allowlist
    }

    /// The validators.
    pub closed spec fn gates_are(&self) -> Seq<Gated> {
        self.gates@
    }

    /// The layout.
    pub closed spec fn layout_is(&self) -> Option<L> {
        by_value(self.layout)
    }

    #[verifier::type_invariant]
    closed spec fn well_formed(&self) -> bool {
        under_own_names(self.queues@)
    }

    /// The transport's kind.
    pub closed spec fn kind_is(&self) -> Seq<char> {
        self.kind@
    }

    /// Whether the bus is what a configuration describes over a layout, with
    /// `added` registered: nothing is wrong with any key.
    pub open spec fn is_bound(
        &self,
        config: Config,
        layout: Option<L>,
        added: Seq<(SchemaIdView, JsonView)>,
    ) -> bool {
        &&& registered_from(layout_schemas(layout), added) == Ok::<
            Seq<(SchemaIdView, JsonView)>,
            int,
        >(self.schemas())
        &&& are_queues_of(self.queues_are(), layout_specs(layout), config.queues@)
        &&& queues_fault(self.queues_are(), self.schemas(), 0) is None
        &&& configured_authors_fault(layout, config.authors@, 0) is None
        &&& are_grants_of(self.grants(), layout, config.authors@)
        &&& gates_fault(config.validators@, self.queues_are(), 0) is None
        &&& are_gates_of(self.gates_are(), config.validators@)
        &&& self.layout_is() == layout
        &&& self.kind_is() == config.transport.kind@
    }

    /// The transport's kind.
    pub fn kind(&self) -> (r: &str)
        ensures
            r@ == self.kind_is(),
    {
        self.kind.as_str()
    }

    /// Every declared queue, in name order.
    pub fn queues(&self) -> (r: Vec<String>)
        ensures
            texts(r@) == names_of(self.queues_are()),
            in_order(self.queues_are()),
    {
        self.queues.ordered();
        self.queues.names()
    }

    /// The authors and their grants, narrowed as the configuration says.
    pub fn allowlist(&self) -> (r: &Allowlist<OpWord>)
        ensures
            *r == self.grants(),
    {
        &self.allowlist
    }

    /// The schemas the queues are checked against.
    pub fn registry(&self) -> (r: &Registry)
        ensures
            r@ == self.schemas(),
    {
        &self.registry
    }

    /// The validators.
    pub fn gates(&self) -> (r: &Vec<Gated>)
        ensures
            r@ == self.gates_are(),
    {
        &self.gates
    }

    /// The same bus, every message offered to `queue` judged by one validator more,
    /// after every one there is: one that is code, which whoever judges holds.
    pub fn with_validator(self, queue: &QueueName) -> (r: Result<Self, BusError>)
        ensures
            match r {
                Ok(bus) => {
                    &&& lookup(self.queues_are(), queue@) is Some
                    &&& bus.kind_is() == self.kind_is()
                    &&& bus.layout_is() == self.layout_is()
                    &&& bus.queues_are() == self.queues_are()
                    &&& bus.grants() == self.grants()
                    &&& bus.schemas() == self.schemas()
                    &&& bus.gates_are().len() == self.gates_are().len() + 1
                    &&& bus.gates_are().drop_last() == self.gates_are()
                    &&& bus.gates_are().last().on@ == queue@
                    &&& bus.gates_are().last().when is None
                    &&& bus.gates_are().last().validator is None
                },
                Err(e) => lookup(self.queues_are(), queue@) is None && unknown_queue(
                    e,
                    queue@,
                    self.queues_are(),
                ),
            },
    {
        if let Err(e) = self.queue(queue) {
            return Err(e);
        }
        proof {
            use_type_invariant(&self);
        }
        let ghost before = self.gates@;
        let mut gates = self.gates;
        gates.push(Gated { on: queue.clone(), when: None, validator: None });
        proof {
            assert(gates@.drop_last() =~= before);
        }
        Ok(
            Bus {
                kind: self.kind,
                layout: self.layout,
                queues: self.queues,
                allowlist: self.allowlist,
                registry: self.registry,
                gates,
            },
        )
    }

    /// The declared queue `name`.
    pub fn queue(&self, name: &QueueName) -> (r: Result<RawQueue, BusError>)
        ensures
            match r {
                Ok(queue) => lookup(self.queues_are(), name@) is Some && queue.spec@ == lookup(
                    self.queues_are(),
                    name@,
                )->0@ && queue.spec@.name == name@ && queue.registry@ == self.schemas(),
                Err(e) => lookup(self.queues_are(), name@) is None && unknown_queue(
                    e,
                    name@,
                    self.queues_are(),
                ),
            },
    {
        proof {
            use_type_invariant(self);
            assert(spec_under(self.queues@, name@) is Some ==> spec_under(
                self.queues@,
                name@,
            )->0.name == name@);
        }
        match self.queues.get(name.as_str()) {
            Some(kept) => Ok(RawQueue::open(kept.copied(), self.registry.copied())),
            None => {
                let names = self.queues.names();
                Err(
                    BusError::UnknownQueue { queue: name.clone(), declared: join(&names, ", ") },
                )
            },
        }
    }

    /// Refuses an offer before the layout reads it: to a queue not declared, or of
    /// what is no object to a queue whose records are.
    pub fn check_offer(&self, queue: &QueueName, record: &Json) -> (r: Result<(), BusError>)
        ensures
            match r {
                Ok(()) => offer_stands(self.queues_are(), queue@, record@),
                Err(e) => offer_refused(self.queues_are(), queue@, record@, e),
            },
    {
        let opened = match self.queue(queue) {
            Ok(opened) => opened,
            Err(e) => return Err(e),
        };
        if (opened.spec.policy.keeps_events() || opened.spec.numbered) && !record.is_object() {
            return Err(
                BusError::Queue(
                    QueueError::NotAnObject {
                        queue: queue.clone(),
                        shape: shape_word(record).to_owned(),
                    },
                ),
            );
        }
        Ok(())
    }

    /// What offering `record` to `queue` pushes, in order: what the layout makes
    /// of it under the narrowed grants, or the record itself.
    pub fn prepare(&self, queue: &QueueName, record: &Json) -> (r: Result<
        Vec<(QueueName, Json)>,
        BusError,
    >)
        ensures
            match r {
                Ok(routed) => offer_becomes(*self, queue@, record@, routed_view(routed@)),
                Err(e) => prepare_refused(*self, queue@, record@, e),
            },
    {
        if let Err(e) = self.check_offer(queue, record) {
            return Err(e);
        }
        match self.layout {
            Some(layout) => match layout.prepare(queue, record, &self.allowlist) {
                Ok(routed) => Ok(routed),
                Err(why) => Err(BusError::Refused { queue: queue.clone(), why }),
            },
            None => {
                let mut routed: Vec<(QueueName, Json)> = Vec::new();
                routed.push((queue.clone(), record.copied()));
                proof {
                    assert(routed_view(routed@) =~= seq![(queue@, record@)]);
                }
                Ok(routed)
            },
        }
    }

    /// Adds the validators that judge a record offered to `target`.
    fn ask_gates(&self, target: &QueueName, record: &Json, out: &mut Vec<Asked>)
        ensures
            asked_view(final(out)@) == asked_view(old(out)@) + asked_of(
                self.gates_are(),
                self.gates_are().len() as int,
                target@,
                record@,
            ),
    {
        let ghost start = asked_view(out@);
        let ghost gates = self.gates@;
        let mut i: usize = 0;
        proof {
            assert(start + asked_of(gates, 0, target@, record@) =~= start);
        }
        while i < self.gates.len()
            invariant
                i <= self.gates@.len(),
                gates == self.gates@,
                asked_view(out@) == start + asked_of(gates, i as int, target@, record@),
            decreases self.gates@.len() - i,
        {
            if self.gates[i].judges(target, record) {
                let ghost before = asked_view(out@);
                let ghost asked = asked_of(gates, i as int, target@, record@);
                out.push(
                    Asked { validator: i, target: target.clone(), record: record.copied() },
                );
                proof {
                    let one = (i as int, target@, record@);
                    assert(asked_view(out@) =~= before.push(one));
                    assert(before.push(one) =~= start + asked.push(one));
                }
            }
            i += 1;
        }
    }

    /// What the validators are asked of an offer and the records it was routed
    /// into, in order. What each says is combined as [`combined`] does.
    pub fn asks(&self, queue: &QueueName, offered: &Json, routed: &Vec<(QueueName, Json)>) -> (r:
        Vec<Asked>)
        ensures
            asked_view(r@) == asked_for(
                self.gates_are(),
                queue@,
                offered@,
                routed_view(routed@),
                routed@.len() as int,
            ),
    {
        let ghost all = routed_view(routed@);
        let ghost gates = self.gates_are();
        let mut out: Vec<Asked> = Vec::new();
        self.ask_gates(queue, offered, &mut out);
        proof {
            assert(asked_view(out@) =~= asked_of(gates, gates.len() as int, queue@, offered@));
        }
        let mut i: usize = 0;
        while i < routed.len()
            invariant
                i <= routed@.len(),
                all == routed_view(routed@),
                gates == self.gates_are(),
                asked_view(out@) == asked_for(gates, queue@, offered@, all, i as int),
            decreases routed@.len() - i,
        {
            if !same_text(routed[i].0.as_str(), queue.as_str()) {
                self.ask_gates(&routed[i].0, &routed[i].1, &mut out);
            }
            i += 1;
        }
        out
    }

    /// Pushes each record an offer to `queue` was routed into, where `verdict`,
    /// what its validators said, passes: in order, up to the first a queue
    /// refuses, when what was pushed before it stays pushed.
    pub fn send_routed<T: Transport>(
        &self,
        transport: &mut T,
        queue: &QueueName,
        routed: Vec<(QueueName, Json)>,
        verdict: &Verdict,
    ) -> (r: Result<Vec<(QueueName, Pushed<Json>)>, BusError>)
        requires
            old(transport).sound(),
        ensures
            final(transport).sound(),
            final(transport).reliable() == old(transport).reliable(),
            send_outcome(
                *self,
                queue@,
                routed_view(routed@),
                verdict@,
                *old(transport),
                *final(transport),
                r,
            ),
    {
        match QueueError::of_verdict(queue, verdict) {
            Ok(()) => {},
            Err(e) => return Err(BusError::Queue(e)),
        }
        let ghost start = *transport;
        let ghost queues = self.queues_are();
        let ghost schemas = self.schemas();
        let ghost all = routed_view(routed@);
        let mut pushed: Vec<(QueueName, Pushed<Json>)> = Vec::new();
        let mut i: usize = 0;
        while i < routed.len()
            invariant
                i <= routed@.len(),
                pushed@.len() == i,
                *verdict is Pass,
                all == routed_view(routed@),
                queues == self.queues_are(),
                schemas == self.schemas(),
                start == *old(transport),
                transport.sound(),
                transport.reliable() == old(transport).reliable(),
                sent(queues, schemas, all, pushed_view(pushed@), i as int, start, *transport),
            decreases routed@.len() - i,
        {
            let ghost done = pushed_view(pushed@);
            let ghost here = *transport;
            proof {
                assert(done.len() == i);
                assert(all[i as int] == (routed@[i as int].0@, routed@[i as int].1@));
            }
            let opened = match self.queue(&routed[i].0) {
                Ok(opened) => opened,
                Err(e) => {
                    proof {
                        assert(stopped_at(
                            queues,
                            schemas,
                            all,
                            done,
                            done.len() as int,
                            start,
                            *transport,
                            e,
                        ));
                    }
                    return Err(e);
                },
            };
            match opened.push_judged(transport, &routed[i].1) {
                Ok(one) => {
                    let ghost it = one;
                    pushed.push((routed[i].0.clone(), one));
                    proof {
                        let now = pushed_view(pushed@);
                        assert(now =~= done.push((all[i as int].0, it)));
                        lemma_sent_extends(queues, schemas, all, done, now, i as int, start, here);
                        assert(landed(
                            lookup(queues, all[i as int].0)->0@,
                            schemas,
                            here,
                            *transport,
                            all[i as int].1,
                            now[i as int].1,
                        ));
                    }
                },
                Err(failure) => {
                    let e = BusError::Queue(failure);
                    proof {
                        if !(failure is Transport) {
                            assert(not_landed(
                                lookup(queues, all[i as int].0)->0@,
                                schemas,
                                here,
                                all[i as int].1,
                                failure,
                            ));
                        }
                        assert(stopped_at(
                            queues,
                            schemas,
                            all,
                            done,
                            done.len() as int,
                            start,
                            *transport,
                            e,
                        ));
                    }
                    return Err(e);
                },
            }
            i += 1;
        }
        Ok(pushed)
    }
}

/// What was sent stays sent, whatever is pushed after it.
pub proof fn lemma_sent_extends<T: Transport>(
    queues: Seq<(Seq<char>, QueueSpec)>,
    schemas: Seq<(SchemaIdView, JsonView)>,
    routed: Seq<(Seq<char>, JsonView)>,
    pushed: Seq<(Seq<char>, Pushed<Json>)>,
    longer: Seq<(Seq<char>, Pushed<Json>)>,
    n: int,
    before: T,
    after: T,
)
    requires
        sent(queues, schemas, routed, pushed, n, before, after),
        pushed.len() <= longer.len(),
        forall|i: int| 0 <= i < pushed.len() ==> longer[i] == pushed[i],
    ensures
        sent(queues, schemas, routed, longer, n, before, after),
    decreases n,
{
    if n > 0 {
        let mid = choose|mid: T|
            sent(queues, schemas, routed, pushed, n - 1, before, mid) && #[trigger] landed(
                lookup(queues, routed[n - 1].0)->0@,
                schemas,
                mid,
                after,
                routed[n - 1].1,
                pushed[n - 1].1,
            );
        lemma_sent_extends(queues, schemas, routed, pushed, longer, n - 1, before, mid);
        assert(sent(queues, schemas, routed, longer, n - 1, before, mid));
    }
}

/// Whether an offer of `record` to `queue` becomes the records `routed`: what the
/// layout makes of it under the narrowed grants, or the record itself.
pub open spec fn offer_becomes<'a, L: Layout>(
    bus: Bus<'a, L>,
    queue: Seq<char>,
    record: JsonView,
    routed: Seq<(Seq<char>, JsonView)>,
) -> bool {
    &&& offer_stands(bus.queues_are(), queue, record)
    &&& match bus.layout_is() {
        Some(layout) => layout.may_prepare(queue, record, bus.grants(), Ok(routed)),
        None => routed == seq![(queue, record)],
    }
}

/// Whether `error` is why an offer of `record` to `queue` becomes nothing: it does not
/// stand, or the layout refuses it.
pub open spec fn prepare_refused<'a, L: Layout>(
    bus: Bus<'a, L>,
    queue: Seq<char>,
    record: JsonView,
    error: BusError,
) -> bool {
    if offer_stands(bus.queues_are(), queue, record) {
        match error {
            BusError::Refused { queue: named, why } => named@ == queue && bus.layout_is() is Some
                && bus.layout_is()->0.may_prepare(queue, record, bus.grants(), Err(why@)),
            _ => false,
        }
    } else {
        offer_refused(bus.queues_are(), queue, record, error)
    }
}

/// What comes of pushing the records an offer to `queue` was routed into, judged as
/// `verdict` says.
pub open spec fn send_outcome<'a, L: Layout, T: Transport>(
    bus: Bus<'a, L>,
    queue: Seq<char>,
    routed: Seq<(Seq<char>, JsonView)>,
    verdict: VerdictView,
    before: T,
    after: T,
    outcome: Result<Vec<(QueueName, Pushed<Json>)>, BusError>,
) -> bool {
    match verdict {
        VerdictView::Refuse(reason) => after == before && outcome is Err && outcome->Err_0 is Queue
            && refused_with(outcome->Err_0->Queue_0, queue, reason),
        VerdictView::Unjudged(reason) => after == before && outcome is Err
            && outcome->Err_0 is Queue && unjudged_with(outcome->Err_0->Queue_0, queue, reason),
        VerdictView::Pass => match outcome {
            Ok(pushed) => pushed@.len() == routed.len() && sent(
                bus.queues_are(),
                bus.schemas(),
                routed,
                pushed_view(pushed@),
                routed.len() as int,
                before,
                after,
            ),
            Err(e) => exists|pushed: Seq<(Seq<char>, Pushed<Json>)>| #[trigger]
                stopped_at(
                    bus.queues_are(),
                    bus.schemas(),
                    routed,
                    pushed,
                    pushed.len() as int,
                    before,
                    after,
                    e,
                ),
        },
    }
}

/// Whether an offer goes on to the layout: its queue is declared, and it is an
/// object where the queue keeps events or numbers its records.
pub open spec fn offer_stands(
    queues: Seq<(Seq<char>, QueueSpec)>,
    queue: Seq<char>,
    record: JsonView,
) -> bool {
    match lookup(queues, queue) {
        Some(kept) => (is_event_policy(kept@.policy) || kept@.numbered) ==> record is Object,
        None => false,
    }
}

/// Whether `error` is why an offer does not go on to the layout.
pub open spec fn offer_refused(
    queues: Seq<(Seq<char>, QueueSpec)>,
    queue: Seq<char>,
    record: JsonView,
    error: BusError,
) -> bool {
    match lookup(queues, queue) {
        Some(kept) => {
            &&& is_event_policy(kept@.policy) || kept@.numbered
            &&& !(record is Object)
            &&& match error {
                BusError::Queue(QueueError::NotAnObject { queue: named, shape }) => named@ == queue
                    && shape@ == shape_is(record),
                _ => false,
            }
        },
        None => unknown_queue(error, queue, queues),
    }
}

// ---------------------------------------------------------------------------
// Laws.
// ---------------------------------------------------------------------------

/// What several verdicts come to does not change where some are combined first:
/// judging an offer queue by queue says what judging it all at once says.
pub proof fn judging_in_parts(first: Seq<VerdictView>, second: Seq<VerdictView>)
    ensures
        combined_view(first + second) == combined_view(
            seq![combined_view(first), combined_view(second)],
        ),
{
    lemma_first_refusal_of_two(first, second);
    lemma_first_unjudged_of_two(first, second);
    let a = combined_view(first);
    let b = combined_view(second);
    let pair = seq![a, b];
    assert(pair.skip(1) =~= seq![b]);
    assert(pair.drop_last() =~= seq![a]);
    assert(seq![b].skip(1) =~= Seq::<VerdictView>::empty());
    assert(seq![a].drop_last() =~= Seq::<VerdictView>::empty());
    reveal_with_fuel(first_refusal, 3);
    reveal_with_fuel(first_unjudged, 3);
}

proof fn lemma_first_refusal_of_two(first: Seq<VerdictView>, second: Seq<VerdictView>)
    ensures
        first_refusal(first + second) == match first_refusal(first) {
            Some(why) => Some(why),
            None => first_refusal(second),
        },
    decreases second.len(),
{
    if second.len() == 0 {
        assert(first + second =~= first);
    } else {
        assert((first + second).drop_last() =~= first + second.drop_last());
        lemma_first_refusal_of_two(first, second.drop_last());
    }
}

proof fn lemma_first_unjudged_of_two(first: Seq<VerdictView>, second: Seq<VerdictView>)
    ensures
        first_unjudged(first + second) == match first_unjudged(first) {
            Some(why) => Some(why),
            None => first_unjudged(second),
        },
    decreases second.len(),
{
    if second.len() == 0 {
        assert(first + second =~= first);
    } else {
        assert((first + second).drop_last() =~= first + second.drop_last());
        lemma_first_unjudged_of_two(first, second.drop_last());
    }
}

/// A configuration never widens what a layout grants an author it declares:
/// where it binds, each operation granted was granted before.
pub proof fn configuration_never_widens<L: Layout>(
    list: Allowlist<OpWord>,
    layout: Option<L>,
    authors: Seq<(Seq<char>, ConfiguredAuthor)>,
    author: Seq<char>,
    op: Seq<char>,
)
    requires
        in_order(authors),
        configured_authors_fault(layout, authors, 0) is None,
        are_grants_of(list, layout, authors),
        layout_grants(layout, author) is Some,
        list.granted_to(author) is Some,
        list.granted_to(author)->0.contains(op),
    ensures
        layout_grants(layout, author)->0.contains(op),
{
    let granted = layout_grants(layout, author)->0;
    if let Some(configured) = lookup(authors, author) {
        lemma_lookup_some(authors, author);
        let at = choose|at: int| 0 <= at < authors.len() && authors[at].0 == author;
        lemma_lookup_at(authors, at);
        lemma_no_author_fault(layout, authors, 0, at);
        let words = texts(configured.config.capabilities@);
        lemma_narrowed_were_granted(layout_ops(layout), granted, author, words, op);
    }
}

proof fn lemma_no_author_fault<L: Layout>(
    layout: Option<L>,
    authors: Seq<(Seq<char>, ConfiguredAuthor)>,
    from: int,
    at: int,
)
    requires
        0 <= from <= at < authors.len(),
        configured_authors_fault(layout, authors, from) is None,
    ensures
        configured_author_fault(
            layout_ops(layout),
            layout_grants(layout, authors[at].0),
            authors[at].0,
            authors[at].1.config,
        ) is None,
    decreases at - from,
{
    if from < at {
        lemma_no_author_fault(layout, authors, from + 1, at);
    }
}

proof fn lemma_narrowed_were_granted(
    ops: Seq<Seq<char>>,
    granted: Seq<Seq<char>>,
    author: Seq<char>,
    words: Seq<Seq<char>>,
    op: Seq<char>,
)
    requires
        narrowing_fault(ops, granted, author, words) is None,
        words.contains(op),
    ensures
        granted.contains(op),
    decreases words.len(),
{
    let i = choose|i: int| 0 <= i < words.len() && words[i] == op;
    if i > 0 {
        assert(words.skip(1)[i - 1] == op);
        lemma_narrowed_were_granted(ops, granted, author, words.skip(1), op);
    }
}

/// A queue a configuration says nothing of is the layout's own.
pub proof fn unconfigured_queue_is_the_layouts(
    queues: Seq<(Seq<char>, QueueSpec)>,
    base: Seq<QueueSpecView>,
    configured: Seq<(Seq<char>, QueueConfig)>,
    name: Seq<char>,
)
    requires
        are_queues_of(queues, base, configured),
        lookup(configured, name) is None,
    ensures
        spec_under(queues, name) == last_spec(base, name),
{
}

} // verus!
