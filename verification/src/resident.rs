//! The resident protocol: the lines a resident core reads and writes.
//!
//! Each request names a capability by its method, and is answered by exactly one
//! line that carries its id.

use crate::capability::{
    Capability, CapabilityView, capabilities, capabilities_view, declared_capabilities,
};
use crate::correlation::Answer;
use crate::fold::Event;
use crate::json::Json;
use crate::schema::{SchemaId, SchemaIdView};
use crate::text::{cat2, cat4, decimal, decimal_of, join, joined, same_text, texts};
use vstd::prelude::*;

verus! {

/// The id the resident protocol's document is registered under.
pub fn resident_protocol() -> (r: SchemaId)
    ensures
        r@ == (SchemaIdView {
            namespace: "bus"@,
            name: "resident-protocol"@,
            version: 1,
        }),
{
    proof {
        reveal_strlit("bus");
        reveal_strlit("resident-protocol");
    }
    SchemaId::literal("bus", "resident-protocol", 1)
}

/// A capability a request runs, named by its method: one of those declared and no
/// other.
#[derive(Debug)]
pub struct ResidentVerb {
    capability: Capability,
}

/// Where a capability of a method is among those declared.
pub open spec fn method_at(declared: Seq<CapabilityView>, method: Seq<char>, from: int) -> Option<
    int,
>
    decreases declared.len() - from,
{
    if from < 0 || from >= declared.len() {
        None
    } else if declared[from].method == method {
        Some(from)
    } else {
        method_at(declared, method, from + 1)
    }
}

/// The methods of capabilities.
pub open spec fn methods_of(declared: Seq<CapabilityView>) -> Seq<Seq<char>> {
    Seq::new(declared.len(), |i: int| declared[i].method)
}

/// What a method that is no verb is refused with.
pub open spec fn not_a_verb(method: Seq<char>) -> Seq<char> {
    "`"@ + method
        + "` is not a verb of the resident core; it answers each capability's method: "@ + joined(
        methods_of(declared_capabilities()),
        ", "@,
    )
}

impl ResidentVerb {
    #[verifier::type_invariant]
    closed spec fn well_formed(&self) -> bool {
        declared_capabilities().contains(self.capability@)
    }

    /// The capability it is.
    pub closed spec fn runs(&self) -> CapabilityView {
        self.capability@
    }

    /// The capability whose method is `method`, if there is one.
    pub fn named(method: &str) -> (r: Option<Self>)
        ensures
            match r {
                Some(verb) => match method_at(declared_capabilities(), method@, 0) {
                    Some(at) => verb.runs() == declared_capabilities()[at],
                    None => false,
                },
                None => method_at(declared_capabilities(), method@, 0) is None,
            },
    {
        let mut all = capabilities();
        let ghost declared = capabilities_view(all@);
        let mut i: usize = 0;
        while i < all.len()
            invariant
                i <= all@.len(),
                declared == capabilities_view(all@),
                declared == declared_capabilities(),
                method_at(declared, method@, 0) == method_at(declared, method@, i as int),
            decreases all@.len() - i,
        {
            if same_text(all[i].method, method) {
                proof {
                    assert(declared[i as int] == all@[i as int]@);
                    assert(declared_capabilities().contains(declared[i as int]));
                }
                let capability = all.remove(i);
                return Some(ResidentVerb { capability });
            }
            i += 1;
        }
        None
    }

    /// The capability whose method is `method`, or the refusal naming the methods
    /// there are.
    pub fn read(method: &str) -> (r: Result<Self, String>)
        ensures
            match r {
                Ok(verb) => match method_at(declared_capabilities(), method@, 0) {
                    Some(at) => verb.runs() == declared_capabilities()[at],
                    None => false,
                },
                Err(why) => method_at(declared_capabilities(), method@, 0) is None && why@
                    == not_a_verb(method@),
            },
    {
        match ResidentVerb::named(method) {
            Some(verb) => Ok(verb),
            None => {
                let all = capabilities();
                let ghost declared = capabilities_view(all@);
                let mut methods: Vec<String> = Vec::new();
                let mut i: usize = 0;
                while i < all.len()
                    invariant
                        i <= all@.len(),
                        declared == capabilities_view(all@),
                        texts(methods@) =~= methods_of(declared).take(i as int),
                    decreases all@.len() - i,
                {
                    let ghost before = texts(methods@);
                    methods.push(all[i].method.to_owned());
                    proof {
                        assert(texts(methods@) =~= before.push(declared[i as int].method));
                    }
                    i += 1;
                }
                proof {
                    assert(texts(methods@) =~= methods_of(declared));
                }
                let known = join(&methods, ", ");
                Err(
                    cat4(
                        "`",
                        method,
                        "` is not a verb of the resident core; it answers each capability's method: ",
                        known.as_str(),
                    ),
                )
            },
        }
    }

    /// The capability: one of those declared.
    pub fn capability(&self) -> (r: &Capability)
        ensures
            r@ == self.runs(),
            declared_capabilities().contains(self.runs()),
    {
        proof {
            use_type_invariant(self);
        }
        &self.capability
    }

    /// Its method, camelCase.
    pub fn method(&self) -> (r: &'static str)
        ensures
            r@ == self.runs().method,
            methods_of(declared_capabilities()).contains(r@),
    {
        proof {
            use_type_invariant(self);
            let declared = declared_capabilities();
            let at = choose|at: int| 0 <= at < declared.len() && declared[at] == self.runs();
            assert(methods_of(declared)[at] == self.runs().method);
        }
        self.capability.method
    }
}

/// A verb is found by its own method.
pub proof fn verb_is_found_by_its_method(at: int)
    requires
        0 <= at < declared_capabilities().len(),
    ensures
        match method_at(declared_capabilities(), declared_capabilities()[at].method, 0) {
            Some(found) => declared_capabilities()[found].method
                == declared_capabilities()[at].method,
            None => false,
        },
{
    lemma_method_found(declared_capabilities(), at, 0);
}

proof fn lemma_method_found(declared: Seq<CapabilityView>, at: int, from: int)
    requires
        0 <= from <= at < declared.len(),
    ensures
        match method_at(declared, declared[at].method, from) {
            Some(found) => 0 <= found < declared.len() && declared[found].method
                == declared[at].method,
            None => false,
        },
    decreases at - from,
{
    if declared[from].method != declared[at].method {
        lemma_method_found(declared, at, from + 1);
    }
}

/// The literal `true`: a cancel line says nothing else.
#[derive(Debug, Clone, Copy, PartialEq, Eq)]
pub struct True;

impl True {
    /// Reads the literal.
    pub fn read(value: bool) -> (r: Result<Self, String>)
        ensures
            r is Ok <==> value,
            r is Err ==> r->Err_0@
                == "a cancel line's `cancel` is `true`; leave the request running by sending nothing"@,
    {
        if value {
            Ok(True)
        } else {
            Err(
                "a cancel line's `cancel` is `true`; leave the request running by sending nothing".to_owned(),
            )
        }
    }
}

/// Run one capability, as its method, with its options.
#[derive(Debug)]
pub struct ResidentRequest {
    /// Chosen by the client and echoed on every line answering this request.
    pub id: u64,
    /// The capability to run.
    pub verb: ResidentVerb,
    /// The capability's options.
    pub args: Vec<(String, Json)>,
    /// What the verb would read as its input.
    pub input: Option<String>,
}

/// Stop the streaming request `id` names.
#[derive(Debug, Clone, Copy, PartialEq, Eq)]
pub struct ResidentCancel {
    /// The request to stop.
    pub id: u64,
    /// Always `true`.
    pub cancel: True,
}

/// What a request that did what it was asked answered.
#[derive(Debug)]
pub struct ResidentAnswer {
    /// The request answered.
    pub id: u64,
    /// The verb's output.
    pub ok: Json,
}

/// A request the resident refused.
#[derive(Debug)]
pub struct ResidentFailure {
    /// The request refused; nothing for a line that named no id to answer.
    pub id: Option<u64>,
    /// Why.
    pub error: ResidentRefusal,
}

/// Why a request was refused.
#[derive(Debug)]
pub struct ResidentRefusal {
    /// The exit code the command line gives this refusal.
    pub exit: ResidentExit,
    /// The command line's refusal.
    pub message: String,
    /// The document the verb printed before refusing.
    pub output: Option<Json>,
}

/// One line a streaming request produced.
#[derive(Debug)]
pub struct ResidentEvent {
    /// The streaming request.
    pub id: u64,
    /// The line, as the verb prints it.
    pub event: Json,
}

/// One line of the resident protocol, in either direction.
#[derive(Debug)]
pub enum ResidentLine {
    /// Client to resident: run one capability.
    Request(ResidentRequest),
    /// Client to resident: stop a streaming request.
    Cancel(ResidentCancel),
    /// Resident to client: a request did what it was asked.
    Answer(ResidentAnswer),
    /// Resident to client: a request was refused.
    Failure(ResidentFailure),
    /// Resident to client: one line a streaming request produced.
    Event(ResidentEvent),
}

/// The two exit codes a refusal carries.
#[derive(Debug, Clone, Copy, PartialEq, Eq, Structural)]
pub enum ResidentExit {
    /// Well-formed input whose answer is no.
    Failed,
    /// Input the verb refuses.
    Invalid,
}

/// The exit code of a refusal.
pub open spec fn exit_code(exit: ResidentExit) -> u8 {
    match exit {
        ResidentExit::Failed => 1,
        ResidentExit::Invalid => 2,
    }
}

impl ResidentExit {
    /// The exit code.
    pub fn code(self) -> (r: u8)
        ensures
            r == exit_code(self),
    {
        match self {
            ResidentExit::Failed => 1,
            ResidentExit::Invalid => 2,
        }
    }

    /// The refusal an exit code is of.
    pub fn from_code(code: u8) -> (r: Result<Self, String>)
        ensures
            match r {
                Ok(exit) => exit_code(exit) == code,
                Err(why) => code != 1 && code != 2 && why@ == decimal(code as nat)
                    + " is not an exit code a refusal carries; it is 1 or 2"@,
            },
    {
        if code == 1 {
            Ok(ResidentExit::Failed)
        } else if code == 2 {
            Ok(ResidentExit::Invalid)
        } else {
            let shown = decimal_of(code as u64);
            Err(
                cat2(shown.as_str(), " is not an exit code a refusal carries; it is 1 or 2"),
            )
        }
    }
}

} // verus!
