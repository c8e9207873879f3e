//! Which transport a configuration names, and what opens it.
//!
//! A kind resolves in one order: the kinds built in, then the kinds registered
//! in-process, then a plugin executable on the search path.

use crate::codec::is_codec_char;
use crate::filter::text_view;
use crate::json::Json;
use crate::table::{Table, in_order, inserted, lemma_lookup_inserted, lookup};
use crate::text::{
    cat2, cat3, cat5, chars_of, ends, ends_with, is_lower, join, joined, quoted, quoted_of,
    starts, starts_with, string_of, texts,
};
use crate::transport::TransportError;
use vstd::prelude::*;

verus! {

/// The built-in kind over a directory.
pub const LOCAL: &'static str = "local";

/// The built-in kind in memory.
pub const MEMORY: &'static str = "memory";

/// What a plugin executable's name starts with.
pub const PLUGIN_PREFIX: &'static str = "onemessagebus-transport-";

/// The `transport` block of a configuration.
#[derive(Debug)]
pub struct TransportConfig {
    /// The kind.
    pub kind: String,
    /// The directory a directory-backed transport keeps its queues in.
    pub dir: Option<String>,
    /// Every other key, handed to the kind that takes it.
    pub options: Vec<(String, Json)>,
}

/// Whether an error is a configuration a kind refuses for `why`.
pub open spec fn refused_config(error: TransportError, kind: Seq<char>, why: Seq<char>) -> bool {
    match error {
        TransportError::Config { kind: named, why: given } => named@ == kind && given@ == why,
        _ => false,
    }
}

/// What a kind that takes no other key refuses the first with.
pub open spec fn option_words(kind: Seq<char>, key: Seq<char>) -> Seq<char> {
    "transport."@ + key + " is not a key the "@ + kind + " transport takes"@
}

impl TransportConfig {
    /// The configuration of a local transport over `dir`.
    pub fn local(dir: &str) -> (r: Self)
        ensures
            r.kind@ == LOCAL@,
            r.dir is Some,
            r.dir->0@ == dir@,
            r.options@.len() == 0,
    {
        TransportConfig {
            kind: LOCAL.to_owned(),
            dir: Some(dir.to_owned()),
            options: Vec::new(),
        }
    }

    /// Refuses a key a built-in kind does not take.
    pub fn refuse_options(&self) -> (r: Result<(), TransportError>)
        ensures
            match r {
                Ok(()) => self.options@.len() == 0,
                Err(e) => self.options@.len() > 0 && refused_config(
                    e,
                    self.kind@,
                    option_words(self.kind@, self.options@[0].0@),
                ),
            },
    {
        if self.options.len() == 0 {
            return Ok(());
        }
        Err(
            TransportError::Config {
                kind: self.kind.clone(),
                why: cat5(
                    "transport.",
                    self.options[0].0.as_str(),
                    " is not a key the ",
                    self.kind.as_str(),
                    " transport takes",
                ),
            },
        )
    }

    /// The directory a local transport is opened over.
    pub fn local_dir(&self) -> (r: Result<&str, TransportError>)
        ensures
            match r {
                Ok(dir) => self.options@.len() == 0 && self.dir is Some && dir@ == self.dir->0@,
                Err(e) => if self.options@.len() > 0 {
                    refused_config(
                        e,
                        self.kind@,
                        option_words(self.kind@, self.options@[0].0@),
                    )
                } else {
                    self.dir is None && refused_config(
                        e,
                        self.kind@,
                        "the local transport needs transport.dir, the directory it keeps its queues in"@,
                    )
                },
            },
    {
        if let Err(e) = self.refuse_options() {
            return Err(e);
        }
        match &self.dir {
            Some(dir) => Ok(dir.as_str()),
            None => Err(
                TransportError::Config {
                    kind: self.kind.clone(),
                    why: "the local transport needs transport.dir, the directory it keeps its queues in".to_owned(),
                },
            ),
        }
    }

    /// Refuses what a memory transport does not take.
    pub fn check_memory(&self) -> (r: Result<(), TransportError>)
        ensures
            match r {
                Ok(()) => self.options@.len() == 0 && self.dir is None,
                Err(e) => if self.options@.len() > 0 {
                    refused_config(
                        e,
                        self.kind@,
                        option_words(self.kind@, self.options@[0].0@),
                    )
                } else {
                    self.dir is Some && refused_config(
                        e,
                        self.kind@,
                        "transport.dir is not a key the memory transport takes"@,
                    )
                },
            },
    {
        if let Err(e) = self.refuse_options() {
            return Err(e);
        }
        if self.dir.is_some() {
            return Err(
                TransportError::Config {
                    kind: self.kind.clone(),
                    why: "transport.dir is not a key the memory transport takes".to_owned(),
                },
            );
        }
        Ok(())
    }
}

/// Whether `kind` is a word a kind may be: lowercase letters, digits and `-`,
/// starting with a letter.
pub open spec fn is_kind(kind: Seq<char>) -> bool {
    &&& kind.len() > 0
    &&& is_lower(kind[0])
    &&& forall|i: int| 0 <= i < kind.len() ==> is_codec_char(#[trigger] kind[i])
}

/// What text that is no kind is refused with.
pub open spec fn kind_words(kind: Seq<char>) -> Seq<char> {
    quoted(kind)
        + " is not a transport kind: a kind is lowercase ASCII letters, digits and `-`, starting with a letter"@
}

/// Whether `kind` is a word a kind may be.
fn kind_is(kind: &str) -> (r: bool)
    ensures
        r == is_kind(kind@),
{
    let chars = chars_of(kind);
    if chars.len() == 0 || !('a' <= chars[0] && chars[0] <= 'z') {
        return false;
    }
    let mut i: usize = 0;
    while i < chars.len()
        invariant
            i <= chars@.len(),
            chars@ == kind@,
            forall|k: int| 0 <= k < i ==> is_codec_char(#[trigger] kind@[k]),
        decreases chars@.len() - i,
    {
        let c = chars[i];
        if !(('a' <= c && c <= 'z') || ('0' <= c && c <= '9') || c == '-') {
            proof {
                assert(!is_codec_char(kind@[i as int]));
            }
            return false;
        }
        i += 1;
    }
    true
}

/// Refuses text that is no kind.
pub fn check_kind(kind: &str) -> (r: Result<(), TransportError>)
    ensures
        match r {
            Ok(()) => is_kind(kind@),
            Err(e) => !is_kind(kind@) && refused_config(e, kind@, kind_words(kind@)),
        },
{
    if kind_is(kind) {
        return Ok(());
    }
    let shown = quoted_of(kind);
    Err(
        TransportError::Config {
            kind: kind.to_owned(),
            why: cat2(
                shown.as_str(),
                " is not a transport kind: a kind is lowercase ASCII letters, digits and `-`, starting with a letter",
            ),
        },
    )
}

/// Where a kind comes from.
#[derive(Debug, Clone, Copy, PartialEq, Eq, Structural)]
pub enum KindOrigin {
    /// Built in.
    Builtin,
    /// Registered in-process.
    Registered,
    /// Served by a plugin executable.
    Plugin,
}

/// One kind that can be opened.
#[derive(Debug)]
pub struct KindEntry {
    /// The kind.
    pub kind: String,
    /// Where it comes from.
    pub origin: KindOrigin,
    /// The plugin executable, for a kind a plugin serves.
    pub path: Option<String>,
}

/// A file found on the search path.
#[derive(Debug)]
pub struct Candidate {
    /// Its name.
    pub name: String,
    /// Its path.
    pub path: String,
    /// Whether it can be executed.
    pub executable: bool,
}

/// What opens a transport.
#[derive(Debug)]
pub enum Opener {
    /// A kind built in, or registered.
    Registered,
    /// A plugin executable.
    Plugin(String),
}

/// The kinds that can be opened without a plugin, and where each comes from.
#[derive(Debug)]
pub struct TransportKinds {
    registered: Table<KindOrigin>,
}

impl View for TransportKinds {
    type V = Seq<(Seq<char>, KindOrigin)>;

    closed spec fn view(&self) -> Seq<(Seq<char>, KindOrigin)> {
        self.registered@
    }
}

/// The kind a file name is a plugin's for: what follows the prefix, less a final
/// `.exe`.
pub open spec fn plugin_kind(name: Seq<char>) -> Option<Seq<char>> {
    if starts(name, PLUGIN_PREFIX@) {
        let rest = name.skip(PLUGIN_PREFIX@.len() as int);
        Some(
            if ends(rest, ".exe"@) {
                rest.take(rest.len() - 4)
            } else {
                rest
            },
        )
    } else {
        None
    }
}

/// The kind a file name is a plugin's for.
pub fn plugin_kind_of(name: &str) -> (r: Option<String>)
    ensures
        match r {
            Some(kind) => plugin_kind(name@) == Some(kind@),
            None => plugin_kind(name@) is None,
        },
{
    if !starts_with(name, PLUGIN_PREFIX) {
        return None;
    }
    let chars = chars_of(name);
    let prefix = chars_of(PLUGIN_PREFIX);
    let len: usize = chars.len();
    let rest = string_of(&chars, prefix.len(), len);
    proof {
        assert(rest@ =~= name@.skip(PLUGIN_PREFIX@.len() as int));
        reveal_strlit(".exe");
    }
    if ends_with(rest.as_str(), ".exe") {
        let inner = chars_of(rest.as_str());
        let end: usize = inner.len();
        let kind = string_of(&inner, 0, end - 4);
        proof {
            assert(kind@ =~= rest@.take(rest@.len() - 4));
        }
        Some(kind)
    } else {
        Some(rest)
    }
}

/// The name of the executable that serves a kind.
pub fn plugin_name(kind: &str) -> (r: String)
    ensures
        r@ == PLUGIN_PREFIX@ + kind@,
{
    cat2(PLUGIN_PREFIX, kind)
}

/// What entries are.
pub open spec fn entries_are(entries: Seq<KindEntry>) -> Seq<
    (Seq<char>, KindOrigin, Option<Seq<char>>),
> {
    Seq::new(
        entries.len(),
        |i: int| (entries[i].kind@, entries[i].origin, text_view(entries[i].path)),
    )
}

/// The kinds of one origin, in the order of their names.
pub open spec fn kinds_of(kinds: Seq<(Seq<char>, KindOrigin)>, origin: KindOrigin) -> Seq<
    (Seq<char>, KindOrigin, Option<Seq<char>>),
>
    decreases kinds.len(),
{
    if kinds.len() == 0 {
        Seq::empty()
    } else {
        let before = kinds_of(kinds.drop_last(), origin);
        if kinds.last().1 == origin {
            before.push((kinds.last().0, origin, None))
        } else {
            before
        }
    }
}

/// The kind a candidate serves, where it is one no registered kind shadows.
pub open spec fn served_kind(kinds: Seq<(Seq<char>, KindOrigin)>, candidate: Candidate) -> Option<
    Seq<char>,
> {
    match plugin_kind(candidate.name@) {
        Some(kind) => if is_kind(kind) && lookup(kinds, kind) is None && candidate.executable {
            Some(kind)
        } else {
            None
        },
        None => None,
    }
}

/// The path of the plugin each kind is served by: the first candidate found.
pub open spec fn plugin_path(
    kinds: Seq<(Seq<char>, KindOrigin)>,
    candidates: Seq<Candidate>,
    kind: Seq<char>,
) -> Option<Seq<char>>
    decreases candidates.len(),
{
    if candidates.len() == 0 {
        None
    } else {
        match plugin_path(kinds, candidates.drop_last(), kind) {
            Some(path) => Some(path),
            None => if served_kind(kinds, candidates.last()) == Some(kind) {
                Some(candidates.last().path@)
            } else {
                None
            },
        }
    }
}

impl TransportKinds {
    /// The built-in kinds: `local` and `memory`.
    pub fn builtin() -> (r: Self)
        ensures
            forall|kind: Seq<char>| #[trigger]
                lookup(r@, kind) == if kind == LOCAL@ || kind == MEMORY@ {
                    Some(KindOrigin::Builtin)
                } else {
                    None
                },
    {
        let mut registered: Table<KindOrigin> = Table::new();
        registered.ordered();
        let ghost none = registered@;
        proof {
            assert forall|kind: Seq<char>| #[trigger]
                lookup(inserted(none, LOCAL@, KindOrigin::Builtin), kind) == if kind == LOCAL@ {
                    Some(KindOrigin::Builtin)
                } else {
                    None
                } by {
                lemma_lookup_inserted(none, LOCAL@, KindOrigin::Builtin, kind);
            }
        }
        registered.insert(LOCAL, KindOrigin::Builtin);
        registered.ordered();
        let ghost one = registered@;
        proof {
            assert forall|kind: Seq<char>| #[trigger]
                lookup(inserted(one, MEMORY@, KindOrigin::Builtin), kind) == if kind == MEMORY@ {
                    Some(KindOrigin::Builtin)
                } else {
                    lookup(one, kind)
                } by {
                lemma_lookup_inserted(one, MEMORY@, KindOrigin::Builtin, kind);
            }
        }
        registered.insert(MEMORY, KindOrigin::Builtin);
        TransportKinds { registered }
    }

    /// Registers `kind`: refused where it is no kind, or is there already.
    pub fn register(&mut self, kind: &str) -> (r: Result<(), TransportError>)
        ensures
            match r {
                Ok(()) => is_kind(kind@) && lookup(old(self)@, kind@) is None && final(self)@
                    == inserted(old(self)@, kind@, KindOrigin::Registered),
                Err(e) => final(self)@ == old(self)@ && if !is_kind(kind@) {
                    refused_config(e, kind@, kind_words(kind@))
                } else {
                    lookup(old(self)@, kind@) is Some && refused_config(
                        e,
                        kind@,
                        "the "@ + kind@ + " transport kind is already registered"@,
                    )
                },
            },
    {
        if let Err(e) = check_kind(kind) {
            return Err(e);
        }
        if self.registered.get(kind).is_some() {
            return Err(
                TransportError::Config {
                    kind: kind.to_owned(),
                    why: cat3("the ", kind, " transport kind is already registered"),
                },
            );
        }
        self.registered.insert(kind, KindOrigin::Registered);
        Ok(())
    }

    /// What opens the transport `config` names: a kind built in or registered
    /// first, then `plugin`, the executable found for it.
    pub fn open(
        &self,
        config: &TransportConfig,
        plugin: Option<String>,
        candidates: &Vec<Candidate>,
    ) -> (r: Result<Opener, TransportError>)
        ensures
            if !is_kind(config.kind@) {
                r is Err && refused_config(r->Err_0, config.kind@, kind_words(config.kind@))
            } else if lookup(self@, config.kind@) is Some {
                r == Ok::<Opener, TransportError>(Opener::Registered)
            } else {
                match plugin {
                    Some(path) => r == Ok::<Opener, TransportError>(Opener::Plugin(path)),
                    None => r is Err && (match r->Err_0 {
                        TransportError::UnknownKind { kind, known } => kind@ == config.kind@
                            && exists|entries: Seq<KindEntry>|
                            lists_kinds(self@, candidates@, entries) && known@ == joined(
                                #[trigger] entry_kinds(entries),
                                ", "@,
                            ),
                        _ => false,
                    }),
                }
            },
    {
        if let Err(e) = check_kind(config.kind.as_str()) {
            return Err(e);
        }
        if self.registered.get(config.kind.as_str()).is_some() {
            return Ok(Opener::Registered);
        }
        match plugin {
            Some(path) => Ok(Opener::Plugin(path)),
            None => {
                let entries = self.kinds(candidates);
                let mut names: Vec<String> = Vec::new();
                let mut i: usize = 0;
                while i < entries.len()
                    invariant
                        i <= entries@.len(),
                        texts(names@) =~= entry_kinds(entries@).take(i as int),
                    decreases entries@.len() - i,
                {
                    let ghost before = texts(names@);
                    names.push(entries[i].kind.clone());
                    proof {
                        assert(texts(names@) =~= before.push(entries@[i as int].kind@));
                    }
                    i += 1;
                }
                proof {
                    assert(texts(names@) =~= entry_kinds(entries@));
                }
                let known = join(&names, ", ");
                Err(TransportError::UnknownKind { kind: config.kind.clone(), known })
            },
        }
    }

    /// Adds the kinds of one origin.
    fn list_origin(&self, origin: KindOrigin, out: &mut Vec<KindEntry>)
        ensures
            entries_are(final(out)@) == entries_are(old(out)@) + kinds_of(self@, origin),
    {
        let ghost all = self@;
        let ghost start = entries_are(out@);
        let mut i: usize = 0;
        proof {
            assert(all.take(0) =~= Seq::<(Seq<char>, KindOrigin)>::empty());
            assert(start + kinds_of(all.take(0), origin) =~= start);
        }
        while i < self.registered.len()
            invariant
                i <= self.registered@.len(),
                all == self.registered@,
                entries_are(out@) == start + kinds_of(all.take(i as int), origin),
            decreases self.registered@.len() - i,
        {
            let ghost before = entries_are(out@);
            let ghost listed = kinds_of(all.take(i as int), origin);
            proof {
                assert(all.take(i + 1).drop_last() =~= all.take(i as int));
                assert(all.take(i + 1).last() == all[i as int]);
            }
            if *self.registered.value_at(i) == origin {
                out.push(
                    KindEntry {
                        kind: self.registered.name_at(i).to_owned(),
                        origin,
                        path: None,
                    },
                );
                proof {
                    let entry = (all[i as int].0, origin, None::<Seq<char>>);
                    assert(entries_are(out@) =~= before.push(entry));
                    assert(before.push(entry) =~= start + listed.push(entry));
                }
            }
            i += 1;
        }
        proof {
            assert(all.take(i as int) =~= all);
        }
    }

    /// Every kind that can be opened: built in, registered, then each plugin
    /// among the candidates that no earlier kind shadows, in name order within
    /// each.
    pub fn kinds(&self, candidates: &Vec<Candidate>) -> (r: Vec<KindEntry>)
        ensures
            lists_kinds(self@, candidates@, r@),
    {
        let mut out: Vec<KindEntry> = Vec::new();
        proof {
            assert(entries_are(out@) =~= Seq::<
                (Seq<char>, KindOrigin, Option<Seq<char>>),
            >::empty());
        }
        self.list_origin(KindOrigin::Builtin, &mut out);
        self.list_origin(KindOrigin::Registered, &mut out);
        let ghost first = entries_are(out@);
        proof {
            assert(first =~= kinds_of(self@, KindOrigin::Builtin) + kinds_of(
                self@,
                KindOrigin::Registered,
            ));
        }
        let plugins = self.plugins(candidates);
        plugins.ordered();
        let mut i: usize = 0;
        while i < plugins.len()
            invariant
                i <= plugins@.len(),
                entries_are(out@) =~= first + plugin_entries(plugins@).take(i as int),
            decreases plugins@.len() - i,
        {
            let ghost before = entries_are(out@);
            out.push(
                KindEntry {
                    kind: plugins.name_at(i).to_owned(),
                    origin: KindOrigin::Plugin,
                    path: Some(plugins.value_at(i).clone()),
                },
            );
            proof {
                assert(entries_are(out@) =~= before.push(plugin_entries(plugins@)[i as int]));
            }
            i += 1;
        }
        proof {
            assert(plugin_entries(plugins@).take(i as int) =~= plugin_entries(plugins@));
            assert(entries_are(out@) == first + plugin_entries(plugins@));
            assert forall|kind: Seq<char>| #[trigger]
                path_under(plugins@, kind) == plugin_path(self@, candidates@, kind) by {}
        }
        out
    }

    /// The plugin each kind is served by.
    fn plugins(&self, candidates: &Vec<Candidate>) -> (r: Table<String>)
        ensures
            forall|kind: Seq<char>| #[trigger]
                path_under(r@, kind) == plugin_path(self@, candidates@, kind),
    {
        let ghost all = candidates@;
        let mut out: Table<String> = Table::new();
        let mut i: usize = 0;
        proof {
            assert(all.take(0) =~= Seq::<Candidate>::empty());
        }
        while i < candidates.len()
            invariant
                i <= candidates@.len(),
                all == candidates@,
                forall|kind: Seq<char>| #[trigger]
                    path_under(out@, kind) == plugin_path(self@, all.take(i as int), kind),
            decreases candidates@.len() - i,
        {
            out.ordered();
            let ghost before = out@;
            proof {
                assert(all.take(i + 1).drop_last() =~= all.take(i as int));
                assert(all.take(i + 1).last() == candidates@[i as int]);
            }
            let mut put = false;
            let mut name = String::new();
            if let Some(kind) = plugin_kind_of(candidates[i].name.as_str()) {
                put = kind_is(kind.as_str()) && self.registered.get(kind.as_str()).is_none()
                    && candidates[i].executable;
                name = kind;
            }
            if put && out.get(name.as_str()).is_none() {
                let path = candidates[i].path.clone();
                out.insert(name.as_str(), path);
                proof {
                    assert forall|kind: Seq<char>| #[trigger]
                        path_under(out@, kind) == plugin_path(self@, all.take(i + 1), kind) by {
                        lemma_lookup_inserted(before, name@, path, kind);
                        assert(path_under(before, kind) == plugin_path(
                            self@,
                            all.take(i as int),
                            kind,
                        ));
                    }
                }
            } else {
                proof {
                    assert forall|kind: Seq<char>| #[trigger]
                        path_under(out@, kind) == plugin_path(self@, all.take(i + 1), kind) by {
                        assert(path_under(before, kind) == plugin_path(
                            self@,
                            all.take(i as int),
                            kind,
                        ));
                    }
                }
            }
            i += 1;
        }
        proof {
            assert(all.take(i as int) =~= all);
        }
        out
    }
}

/// The path a table of plugins holds under a kind.
pub open spec fn path_under(plugins: Seq<(Seq<char>, String)>, kind: Seq<char>) -> Option<
    Seq<char>,
> {
    match lookup(plugins, kind) {
        Some(path) => Some(path@),
        None => None,
    }
}

/// Plugins as entries.
pub open spec fn plugin_entries(plugins: Seq<(Seq<char>, String)>) -> Seq<
    (Seq<char>, KindOrigin, Option<Seq<char>>),
> {
    Seq::new(plugins.len(), |i: int| (plugins[i].0, KindOrigin::Plugin, Some(plugins[i].1@)))
}

/// The kinds of entries.
pub open spec fn entry_kinds(entries: Seq<KindEntry>) -> Seq<Seq<char>> {
    Seq::new(entries.len(), |i: int| entries[i].kind@)
}

/// Whether entries are every kind that can be opened: built in, registered, then
/// the plugin each other kind is served by, in name order within each.
pub open spec fn lists_kinds(
    kinds: Seq<(Seq<char>, KindOrigin)>,
    candidates: Seq<Candidate>,
    entries: Seq<KindEntry>,
) -> bool {
    exists|plugins: Seq<(Seq<char>, String)>|
        {
            &&& in_order(plugins)
            &&& forall|kind: Seq<char>| #[trigger]
                path_under(plugins, kind) == plugin_path(kinds, candidates, kind)
            &&& entries_are(entries) == kinds_of(kinds, KindOrigin::Builtin) + kinds_of(
                kinds,
                KindOrigin::Registered,
            ) + #[trigger] plugin_entries(plugins)
        }
}

/// A kind built in or registered is opened as such, whatever plugin there is.
pub proof fn registered_kinds_shadow_plugins(
    kinds: Seq<(Seq<char>, KindOrigin)>,
    candidates: Seq<Candidate>,
    kind: Seq<char>,
)
    requires
        lookup(kinds, kind) is Some,
    ensures
        plugin_path(kinds, candidates, kind) is None,
    decreases candidates.len(),
{
    if candidates.len() > 0 {
        registered_kinds_shadow_plugins(kinds, candidates.drop_last(), kind);
    }
}

} // verus!
