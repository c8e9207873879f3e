//! The spool backend: a directory a receiver's process binds, which a sender in
//! another process offers messages into and reads each answer back out of.
//!
//! What is written, renamed and waited for is the caller's to do: each function
//! here decides from what was found.

use crate::inbox::{BackendError, Closed, Undelivered};
use crate::json::{Json, JsonView, member, whole};
use crate::local::{path_in, path_of};
use crate::policy::schema_view;
use crate::schema::{SchemaId, id_text};
use crate::text::{
    cat2, cat4, cat5, chars_of, decimal, decimal_of, digit_char, ends, ends_with, is_before,
    lemma_before_irreflexive, lemma_before_total, lemma_before_transitive, string_of,
    text_before, texts,
};
use vstd::prelude::*;

verus! {

/// How many milliseconds a sender waits for its message to be taken.
pub const SPOOL_WAIT: u64 = 30000;

/// The shape every document in a spool is written under.
pub const SPOOL_SCHEMA_VERSION: u32 = 1;

/// How often a spool is looked at, in milliseconds.
pub const POLL: u64 = 20;

/// The receiver's declaration: which message schema it takes.
pub const DECLARATION: &'static str = "spool.json";

/// Held locked by the bound receiver for as long as it is bound.
pub const RECEIVER_LOCK: &'static str = "receiver.lock";

/// Written when the receiver closes its inbox.
pub const CLOSED_RECORD: &'static str = "closed.json";

/// What the name of a message waiting to be taken ends with.
pub const OFFER: &'static str = ".offer.json";

/// What the name of a message taken ends with.
pub const TAKEN: &'static str = ".taken.json";

/// What the name of an answer ends with.
pub const ANSWER: &'static str = ".answer.json";

/// What the name of a message its sender took back ends with.
pub const WITHDRAWN: &'static str = ".withdrawn";

// ---------------------------------------------------------------------------
// Ids.
// ---------------------------------------------------------------------------

/// The last `width` digits of `n`, with leading zeros.
pub open spec fn padded(n: nat, width: nat) -> Seq<char>
    decreases width,
{
    if width == 0 {
        Seq::empty()
    } else {
        padded(n / 10, (width - 1) as nat).push(digit_char(n % 10))
    }
}

fn digits(n: u128, width: usize) -> (r: Vec<char>)
    ensures
        r@ == padded(n as nat, width as nat),
    decreases width,
{
    if width == 0 {
        return Vec::new();
    }
    let mut out = digits(n / 10, width - 1);
    let d: u8 = (n % 10) as u8;
    out.push((48 + d) as char);
    out
}

/// The last `width` digits of `n`, with leading zeros.
pub fn padded_of(n: u128, width: usize) -> (r: String)
    ensures
        r@ == padded(n as nat, width as nat),
{
    let chars = digits(n, width);
    let len: usize = chars.len();
    let r = string_of(&chars, 0, len);
    proof {
        assert(r@ =~= chars@);
    }
    r
}

/// An offer's id: the instant, the process and its count.
pub open spec fn minted_id(nanos: nat, process: nat, count: nat) -> Seq<char> {
    padded(nanos, 39) + "-"@ + decimal(process) + "-"@ + padded(count, 20)
}

/// The id of an offer minted at an instant, in nanoseconds since the epoch, by a
/// process that minted `count` before it.
pub fn mint(nanos: u128, process: u32, count: u64) -> (r: String)
    ensures
        r@ == minted_id(nanos as nat, process as nat, count as nat),
{
    let now = padded_of(nanos, 39);
    let pid = decimal_of(process as u64);
    let minted = padded_of(count as u128, 20);
    cat5(now.as_str(), "-", pid.as_str(), "-", minted.as_str())
}

/// Ten to the power of `n`.
pub open spec fn ten_to(n: nat) -> nat
    decreases n,
{
    if n == 0 {
        1
    } else {
        10 * ten_to((n - 1) as nat)
    }
}

proof fn lemma_padded_len(n: nat, width: nat)
    ensures
        padded(n, width).len() == width,
    decreases width,
{
    if width > 0 {
        lemma_padded_len(n / 10, (width - 1) as nat);
    }
}

proof fn lemma_prefix_before(a: Seq<char>, b: Seq<char>, x: Seq<char>, y: Seq<char>)
    requires
        a.len() == b.len(),
        text_before(a, b),
    ensures
        text_before(a + x, b + y),
    decreases a.len(),
{
    let ax = a + x;
    let by = b + y;
    if a.len() > 0 {
        if a[0] == b[0] {
            assert(ax.skip(1) =~= a.skip(1) + x);
            assert(by.skip(1) =~= b.skip(1) + y);
            lemma_prefix_before(a.skip(1), b.skip(1), x, y);
        }
        assert(ax[0] == a[0] && by[0] == b[0]);
    }
}

proof fn lemma_same_prefix_before(a: Seq<char>, x: Seq<char>, y: Seq<char>)
    requires
        text_before(x, y),
    ensures
        text_before(a + x, a + y),
    decreases a.len(),
{
    if a.len() > 0 {
        assert((a + x).skip(1) =~= a.skip(1) + x);
        assert((a + y).skip(1) =~= a.skip(1) + y);
        lemma_same_prefix_before(a.skip(1), x, y);
        assert((a + x)[0] == a[0] && (a + y)[0] == a[0]);
    } else {
        assert(a + x =~= x);
        assert(a + y =~= y);
    }
}

/// Numbers written with as many digits are in the order of their texts.
pub proof fn padded_numbers_sort(a: nat, b: nat, width: nat)
    requires
        a < b,
        b < ten_to(width),
    ensures
        text_before(padded(a, width), padded(b, width)),
    decreases width,
{
    if width > 0 {
        let w = (width - 1) as nat;
        let x = seq![digit_char(a % 10)];
        let y = seq![digit_char(b % 10)];
        lemma_padded_len(a / 10, w);
        lemma_padded_len(b / 10, w);
        assert(padded(a, width) =~= padded(a / 10, w) + x);
        assert(padded(b, width) =~= padded(b / 10, w) + y);
        assert(b / 10 < ten_to(w)) by (nonlinear_arith)
            requires
                b < 10 * ten_to(w),
        ;
        if a / 10 < b / 10 {
            padded_numbers_sort(a / 10, b / 10, w);
            lemma_prefix_before(padded(a / 10, w), padded(b / 10, w), x, y);
        } else {
            assert(a / 10 == b / 10);
            assert(a % 10 < b % 10);
            assert(digit_char(a % 10) < digit_char(b % 10));
            assert(text_before(x, y));
            lemma_same_prefix_before(padded(a / 10, w), x, y);
        }
    }
}

/// An offer minted at an earlier instant sorts before a later one, whatever process
/// minted it.
pub proof fn earlier_offers_sort_first(
    earlier: nat,
    later: nat,
    process: nat,
    other: nat,
    count: nat,
    other_count: nat,
)
    requires
        earlier < later,
        later < ten_to(39),
    ensures
        text_before(minted_id(earlier, process, count), minted_id(later, other, other_count)),
{
    padded_numbers_sort(earlier, later, 39);
    lemma_padded_len(earlier, 39);
    lemma_padded_len(later, 39);
    let x = "-"@ + decimal(process) + "-"@ + padded(count, 20);
    let y = "-"@ + decimal(other) + "-"@ + padded(other_count, 20);
    lemma_prefix_before(padded(earlier, 39), padded(later, 39), x, y);
    assert(minted_id(earlier, process, count) =~= padded(earlier, 39) + x);
    assert(minted_id(later, other, other_count) =~= padded(later, 39) + y);
}

// ---------------------------------------------------------------------------
// The offers waiting.
// ---------------------------------------------------------------------------

/// The file of a message in a spool.
pub fn message_file(dir: &str, id: &str, ending: &str) -> (r: String)
    ensures
        r@ == path_in(dir@, id@ + ending@),
{
    let name = cat2(id, ending);
    path_of(dir, name.as_str())
}

/// The id a name offers a message under.
pub open spec fn offer_id(name: Seq<char>) -> Option<Seq<char>> {
    if ends(name, OFFER@) {
        Some(name.take(name.len() - OFFER@.len()))
    } else {
        None
    }
}

/// The ids names offer messages under, in the order of the names.
pub open spec fn offer_ids(names: Seq<Seq<char>>) -> Seq<Seq<char>>
    decreases names.len(),
{
    if names.len() == 0 {
        Seq::empty()
    } else {
        let before = offer_ids(names.drop_last());
        match offer_id(names.last()) {
            Some(id) => before.push(id),
            None => before,
        }
    }
}

/// Whether texts are in order.
pub open spec fn sorted_texts(all: Seq<Seq<char>>) -> bool {
    forall|i: int, j: int| 0 <= i < j < all.len() ==> !text_before(all[j], all[i])
}

proof fn lemma_not_before(a: Seq<char>, b: Seq<char>, c: Seq<char>)
    requires
        !text_before(b, a),
        !text_before(c, b),
    ensures
        !text_before(c, a),
{
    lemma_before_total(a, b);
    lemma_before_total(b, c);
    if text_before(c, a) {
        if a == b {
        } else {
            lemma_before_transitive(c, a, b);
        }
    }
}

proof fn lemma_before_asymmetric(a: Seq<char>, b: Seq<char>)
    requires
        text_before(a, b),
    ensures
        !text_before(b, a),
{
    if text_before(b, a) {
        lemma_before_transitive(a, b, a);
        lemma_before_irreflexive(a);
    }
}

/// Puts a text in its place among sorted ones.
fn place_text(sorted: &mut Vec<String>, text: String)
    requires
        sorted_texts(texts(old(sorted)@)),
    ensures
        sorted_texts(texts(final(sorted)@)),
        texts(final(sorted)@).to_multiset() == texts(old(sorted)@).to_multiset().insert(text@),
{
    broadcast use vstd::seq_lib::group_to_multiset_ensures;

    let ghost was = texts(sorted@);
    let ghost one = text@;
    let mut at: usize = sorted.len();
    while at > 0 && is_before(text.as_str(), sorted[at - 1].as_str())
        invariant
            at <= sorted@.len(),
            was == texts(sorted@),
            one == text@,
            forall|k: int| at <= k < was.len() ==> text_before(one, #[trigger] was[k]),
        decreases at,
    {
        at = at - 1;
    }
    sorted.insert(at, text);
    proof {
        let now = texts(sorted@);
        assert(now =~= was.insert(at as int, one));
        assert(now.to_multiset() =~= was.to_multiset().insert(one));
        assert forall|i: int, j: int| 0 <= i < j < now.len() implies !text_before(now[j], now[i]) by {
            if i == at as int {
                assert(now[j] == was[j - 1]);
                assert(text_before(one, was[j - 1]));
                lemma_before_asymmetric(one, was[j - 1]);
            } else if j == at as int {
                assert(now[i] == was[i]);
                if i < at - 1 {
                    assert(!text_before(was[at - 1], was[i]));
                    lemma_not_before(was[i], was[at - 1], one);
                }
            } else {
                let k = if i > at {
                    i - 1
                } else {
                    i
                };
                let l = if j > at {
                    j - 1
                } else {
                    j
                };
                assert(now[i] == was[k] && now[j] == was[l]);
            }
        }
    }
}

/// The ids of every offer waiting among the names of a spool, in order: that of the
/// instants they were minted at.
pub fn offered(names: &Vec<String>) -> (r: Vec<String>)
    ensures
        sorted_texts(texts(r@)),
        texts(r@).to_multiset() == offer_ids(texts(names@)).to_multiset(),
{
    broadcast use vstd::seq_lib::group_to_multiset_ensures;

    let ghost all = texts(names@);
    let mut out: Vec<String> = Vec::new();
    let mut i: usize = 0;
    proof {
        assert(all.take(0) =~= Seq::<Seq<char>>::empty());
        assert(texts(out@) =~= Seq::<Seq<char>>::empty());
        reveal_strlit(".offer.json");
    }
    while i < names.len()
        invariant
            i <= names@.len(),
            all == texts(names@),
            sorted_texts(texts(out@)),
            texts(out@).to_multiset() == offer_ids(all.take(i as int)).to_multiset(),
            OFFER@.len() == 11,
        decreases names@.len() - i,
    {
        let name = names[i].as_str();
        proof {
            assert(all[i as int] == name@);
            assert(all.take(i + 1).drop_last() =~= all.take(i as int));
            assert(all.take(i + 1).last() == all[i as int]);
        }
        if ends_with(name, OFFER) {
            let chars = chars_of(name);
            let end: usize = chars.len();
            let id = string_of(&chars, 0, end - 11);
            proof {
                assert(id@ =~= name@.take(name@.len() - 11));
                let before = offer_ids(all.take(i as int));
                before.to_multiset_ensures();
                assert(before.push(id@).to_multiset() =~= before.to_multiset().insert(id@));
            }
            place_text(&mut out, id);
        }
        i += 1;
    }
    proof {
        assert(all.take(i as int) =~= all);
    }
    out
}

// ---------------------------------------------------------------------------
// Documents.
// ---------------------------------------------------------------------------

/// The version a document declares.
pub open spec fn declared_version(document: JsonView) -> Option<u64> {
    match member(document, "schema_version"@) {
        Some(value) => whole(value),
        None => None,
    }
}

/// A version, or that there is none.
pub open spec fn version_or_none(version: Option<u64>) -> Seq<char> {
    match version {
        Some(version) => decimal(version as nat),
        None => "none"@,
    }
}

/// Refuses a document of another version than this build reads.
pub fn check_version(at: &str, file: &str, document: &Json) -> (r: Result<(), BackendError>)
    ensures
        match r {
            Ok(()) => declared_version(document@) == Some(SPOOL_SCHEMA_VERSION as u64),
            Err(e) => declared_version(document@) != Some(SPOOL_SCHEMA_VERSION as u64) && match e {
                BackendError::Unreadable { at: told, file: named, why } => told@ == at@ && named@
                    == file@ && why@ == "it declares schema_version "@ + version_or_none(
                    declared_version(document@),
                ) + ", and this build reads "@ + decimal(SPOOL_SCHEMA_VERSION as nat),
                _ => false,
            },
        },
{
    let version: Option<u64> = match document.get("schema_version") {
        Some(value) => value.as_u64(),
        None => None,
    };
    if let Some(found) = version {
        if found == SPOOL_SCHEMA_VERSION as u64 {
            return Ok(());
        }
    }
    let shown = match version {
        Some(found) => decimal_of(found),
        None => "none".to_owned(),
    };
    let wanted = decimal_of(SPOOL_SCHEMA_VERSION as u64);
    Err(
        BackendError::Unreadable {
            at: at.to_owned(),
            file: file.to_owned(),
            why: cat4(
                "it declares schema_version ",
                shown.as_str(),
                ", and this build reads ",
                wanted.as_str(),
            ),
        },
    )
}

/// Why a path is no spool: nothing is there, or it is no directory.
pub fn check_spool(address: &str, is_dir: bool, exists: bool) -> (r: Result<(), BackendError>)
    ensures
        match r {
            Ok(()) => is_dir,
            Err(e) => !is_dir && match e {
                BackendError::Absent { what, path, why } => what@ == "a spool"@ && path@ == address@
                    && why@ == if exists {
                    "it is not a directory"@
                } else {
                    "nothing is there"@
                },
                _ => false,
            },
        },
{
    if is_dir {
        return Ok(());
    }
    Err(
        BackendError::Absent {
            what: "a spool".to_owned(),
            path: address.to_owned(),
            why: if exists {
                "it is not a directory".to_owned()
            } else {
                "nothing is there".to_owned()
            },
        },
    )
}

/// What an answer document says became of a message.
#[derive(Debug)]
pub enum AnswerBody {
    /// The receiver's disposition.
    Disposition(Json),
    /// The inbox closed before the receiver answered.
    Closed(Closed),
    /// The receiver could not read the offer.
    Refused {
        /// Why.
        reason: String,
    },
}

/// What an answer tells a message's sender.
pub fn answer_of(spool: &str, body: AnswerBody) -> (r: Result<Json, Undelivered>)
    ensures
        match body {
            AnswerBody::Disposition(disposition) => r == Ok::<Json, Undelivered>(disposition),
            AnswerBody::Closed(closed) => r == Err::<Json, Undelivered>(
                Undelivered::Closed(closed),
            ),
            AnswerBody::Refused { reason } => match r {
                Err(Undelivered::Backend(BackendError::Refused { spool: at, why })) => at@ == spool@
                    && why == reason,
                _ => false,
            },
        },
{
    match body {
        AnswerBody::Disposition(disposition) => Ok(disposition),
        AnswerBody::Closed(closed) => Err(Undelivered::Closed(closed)),
        AnswerBody::Refused { reason } => Err(
            Undelivered::Backend(BackendError::Refused { spool: spool.to_owned(), why: reason }),
        ),
    }
}

/// Refuses an offer of another schema than its receiver takes; one that names none
/// is read as it is.
pub fn check_offer_schema(offered: &Option<SchemaId>, takes: &SchemaId) -> (r: Result<(), String>)
    ensures
        match r {
            Ok(()) => schema_view(*offered) is None || schema_view(*offered) == Some(takes@),
            Err(why) => schema_view(*offered) is Some && schema_view(*offered)->0 != takes@ && why@
                == "the message is "@ + id_text(schema_view(*offered)->0)
                + ", and this receiver takes "@ + id_text(takes@),
        },
{
    if let Some(schema) = offered {
        if !schema.equals(takes) {
            let named = schema.to_text();
            let wanted = takes.to_text();
            return Err(
                cat4("the message is ", named.as_str(), ", and this receiver takes ", wanted.as_str()),
            );
        }
    }
    Ok(())
}

// ---------------------------------------------------------------------------
// Waiting for an answer.
// ---------------------------------------------------------------------------

/// What a sender finds when it looks at its message and there is no answer yet.
#[derive(Debug, Clone, Copy, PartialEq, Eq, Structural)]
pub struct Look {
    /// Whether the message still waits to be taken.
    pub offered: bool,
    /// Whether the receiver has closed.
    pub closed: bool,
    /// Whether the bounded wait has passed.
    pub elapsed: bool,
    /// Whether the message is held, taken.
    pub taken: bool,
    /// Whether a receiver is bound.
    pub bound: bool,
}

/// What a sender does next.
#[derive(Debug, Clone, Copy, PartialEq, Eq, Structural)]
pub enum LookStep {
    /// It takes its message back, and is told of the close.
    WithdrawClosed,
    /// It takes its message back, and is told the wait elapsed.
    WithdrawElapsed,
    /// It looks for the answer once more: without one, its message is lost.
    LastLook,
    /// It looks again later.
    Sleep,
}

/// What a sender does next, having found no answer: it takes a message that still
/// waits back once the receiver closed or the wait passed, and gives a taken one up
/// only where no receiver holds it.
pub open spec fn next_look(look: Look) -> LookStep {
    if look.offered {
        if look.closed {
            LookStep::WithdrawClosed
        } else if look.elapsed {
            LookStep::WithdrawElapsed
        } else {
            LookStep::Sleep
        }
    } else if !look.taken || !look.bound {
        LookStep::LastLook
    } else {
        LookStep::Sleep
    }
}

/// What a sender does next, having found no answer.
pub fn look_step(look: Look) -> (r: LookStep)
    ensures
        r == next_look(look),
{
    if look.offered {
        if look.closed {
            LookStep::WithdrawClosed
        } else if look.elapsed {
            LookStep::WithdrawElapsed
        } else {
            LookStep::Sleep
        }
    } else if !look.taken || !look.bound {
        LookStep::LastLook
    } else {
        LookStep::Sleep
    }
}

/// A message held by a receiver that is bound is waited for, however long, and
/// whether or not it closes.
pub proof fn held_message_is_waited_for(look: Look)
    requires
        !look.offered,
        look.taken,
        look.bound,
    ensures
        next_look(look) == LookStep::Sleep,
{
}

} // verus!
