//! How a URL is fetched into a temporary file.

use crate::decimal;
use crate::text;
use crate::yarnrc;
use crate::yarnrc::NpmRegistry;
use vstd::prelude::*;
use vstd::string::*;

verus! {

/// How often a request is repeated at most.
pub const MAX_ATTEMPTS: usize = 5;

/// What is done for a request, one step after the other.
#[derive(Debug, PartialEq, Eq, Clone, Copy, Structural)]
pub enum Step {
    /// Open a temporary file.
    OpenTempfile,
    /// Send the request.
    SendRequest,
    /// Read a piece of the response's body.
    ReadChunk,
    /// Write the piece to the temporary file.
    CopyChunk,
    /// Go back to the start of the temporary file.
    Rewind,
}

/// What came of a step.
#[derive(Debug, PartialEq, Eq, Clone, Copy, Structural)]
pub enum Event {
    TempfileOpened,
    Responded { status: u16 },
    ChunkRead,
    BodyEnded,
    ChunkCopied,
    Rewound,
    Failed { step: Step },
}

/// Why a request failed.
#[derive(Debug, PartialEq, Eq, Clone, Copy, Structural)]
pub enum Failure {
    /// A step failed.
    Step { step: Step },
    /// The response says that the request was not successful.
    Status { status: u16 },
}

/// What happens after a step.
#[derive(Debug, PartialEq, Eq, Clone, Copy, Structural)]
pub enum Next {
    /// The next step is done.
    Go { step: Step },
    /// The file is there.
    Finish,
    /// The request failed, and may be repeated or not.
    Stop { failure: Failure, is_transient: bool },
}

/// Whether a status says that a request was successful.
pub open spec fn is_success(status: u16) -> bool {
    200 <= status < 300
}

/// Whether a step that failed may succeed another time: those do that depend on the network.
pub open spec fn is_transient(step: Step) -> bool {
    step == Step::SendRequest || step == Step::ReadChunk
}

/// What follows on an event.
pub open spec fn next_of(event: Event) -> Next {
    match event {
        Event::TempfileOpened => Next::Go { step: Step::SendRequest },
        Event::Responded { status } => if is_success(status) {
            Next::Go { step: Step::ReadChunk }
        } else {
            Next::Stop { failure: Failure::Status { status }, is_transient: true }
        },
        Event::ChunkRead => Next::Go { step: Step::CopyChunk },
        Event::ChunkCopied => Next::Go { step: Step::ReadChunk },
        Event::BodyEnded => Next::Go { step: Step::Rewind },
        Event::Rewound => Next::Finish,
        Event::Failed { step } => Next::Stop {
            failure: Failure::Step { step },
            is_transient: is_transient(step),
        },
    }
}

/// The step that an event comes of.
pub open spec fn step_of(event: Event) -> Step {
    match event {
        Event::TempfileOpened => Step::OpenTempfile,
        Event::Responded { .. } => Step::SendRequest,
        Event::ChunkRead => Step::ReadChunk,
        Event::BodyEnded => Step::ReadChunk,
        Event::ChunkCopied => Step::CopyChunk,
        Event::Rewound => Step::Rewind,
        Event::Failed { step } => step,
    }
}

/// Decides what follows on an event.
pub fn after(event: Event) -> (r: Next)
    ensures
        r == next_of(event),
{
    match event {
        Event::TempfileOpened => Next::Go { step: Step::SendRequest },
        Event::Responded { status } => if 200 <= status && status < 300 {
            Next::Go { step: Step::ReadChunk }
        } else {
            Next::Stop { failure: Failure::Status { status }, is_transient: true }
        },
        Event::ChunkRead => Next::Go { step: Step::CopyChunk },
        Event::ChunkCopied => Next::Go { step: Step::ReadChunk },
        Event::BodyEnded => Next::Go { step: Step::Rewind },
        Event::Rewound => Next::Finish,
        Event::Failed { step } => Next::Stop {
            failure: Failure::Step { step },
            is_transient: step == Step::SendRequest || step == Step::ReadChunk,
        },
    }
}

/// Whether a request that failed is made again, after so many attempts.
pub open spec fn is_repeated(attempts: nat, is_transient: bool) -> bool {
    is_transient && attempts <= MAX_ATTEMPTS
}

/// Decides whether a request that failed is made again: if it may succeed another time, and the
/// first attempt was not yet repeated as often as may be.
pub fn may_repeat(attempts: usize, is_transient: bool) -> (r: bool)
    ensures
        r == is_repeated(attempts as nat, is_transient),
{
    is_transient && attempts <= MAX_ATTEMPTS
}

impl Failure {
    /// What is said of the failure. The status is described by the one who got it.
    pub open spec fn text(self, status: Seq<char>) -> Seq<char> {
        match self {
            Failure::Step { step: Step::OpenTempfile } => "opening tempfile"@,
            Failure::Step { step: Step::SendRequest } => "sending http request"@,
            Failure::Step { step: Step::ReadChunk } => "reading response chunk"@,
            Failure::Step { step: Step::CopyChunk } => "copying response chunk into tempfile"@,
            Failure::Step { step: Step::Rewind } => "seeking tempfile back to the beginning"@,
            Failure::Status { .. } => "non-successful HTTP response: "@ + status,
        }
    }

    /// The message for the user.
    pub fn message(&self, status: &str) -> (r: String)
        ensures
            r@ == self.text(status@),
    {
        match self {
            Failure::Step { step } => match step {
                Step::OpenTempfile => "opening tempfile".to_owned(),
                Step::SendRequest => "sending http request".to_owned(),
                Step::ReadChunk => "reading response chunk".to_owned(),
                Step::CopyChunk => "copying response chunk into tempfile".to_owned(),
                Step::Rewind => "seeking tempfile back to the beginning".to_owned(),
            },
            Failure::Status { .. } => "non-successful HTTP response: ".to_owned().concat(status),
        }
    }
}

/// What is said before an attempt, of which there were `attempt` before.
pub open spec fn retry_text(attempt: nat, url: Seq<char>) -> Option<Seq<char>> {
    if attempt == 0 {
        None
    } else {
        Some(
            "Failed to fetch (on try "@ + decimal::written((attempt - 1) as nat) + "/"@
                + decimal::written(MAX_ATTEMPTS as nat) + "): "@ + url,
        )
    }
}

/// The message before an attempt, if it is not the first.
pub fn retry_message(attempt: usize, url: &str) -> (r: Option<String>)
    ensures
        text::opt_text(r) == retry_text(attempt as nat, url@),
{
    if attempt == 0 {
        None
    } else {
        let prev = decimal::write((attempt - 1) as u64);
        let max = decimal::write(MAX_ATTEMPTS as u64);
        Some(
            "Failed to fetch (on try ".to_owned().concat(prev.as_str()).concat("/").concat(
                max.as_str(),
            ).concat("): ").concat(url),
        )
    }
}

/// Keeps the registries that have a token. An absent configuration has none.
pub fn load_registry_tokens(registries: Option<Vec<NpmRegistry>>) -> (r: Vec<(String, String)>)
    ensures
        text::pair_texts(r@) == match registries {
            Some(v) => yarnrc::with_token(v@),
            None => seq![],
        },
{
    let mut r: Vec<(String, String)> = Vec::new();
    assert(text::pair_texts(r@) =~= seq![]);
    let list = match registries {
        Some(list) => list,
        None => {
            return r;
        },
    };
    assert(list@.take(0) =~= seq![]);
    for registry in it: list
        invariant
            it.seq() == list@,
            text::pair_texts(r@) == yarnrc::with_token(list@.take(it.index() as int)),
    {
        proof {
            let n = it.index() as int;
            assert(list@.take(n + 1).drop_last() =~= list@.take(n));
            assert(list@.take(n + 1).last() == registry);
        }
        if let Some(token) = registry.npm_auth_token {
            let ghost before = r@;
            let ghost pair = (registry.registry@, token@);
            r.push((registry.registry, token));
            assert(text::pair_texts(r@) =~= text::pair_texts(before).push(pair));
        }
    }
    assert(list@.take(list@.len() as int) =~= list@);
    r
}

/// What is to be done after events, the first of which is about the temporary file. Events that
/// are not about the step that was to be done lead nowhere.
pub open spec fn after_all(events: Seq<Event>) -> Option<Next>
    decreases events.len(),
{
    if events.len() == 0 {
        Some(Next::Go { step: Step::OpenTempfile })
    } else {
        match after_all(events.drop_last()) {
            Some(Next::Go { step }) if step == step_of(events.last()) => Some(
                next_of(events.last()),
            ),
            _ => None,
        }
    }
}

/// A file is handed out only if its request was successful, every piece of the body that was read
/// was written, the body came to its end, and the file is at its start.
pub proof fn law_files_are_complete(events: Seq<Event>)
    requires
        after_all(events) == Some(Next::Finish),
    ensures
        events.len() >= 4,
        events[0] == Event::TempfileOpened,
        events[1] matches Event::Responded { status } && is_success(status),
        events[events.len() - 2] == Event::BodyEnded,
        events[events.len() - 1] == Event::Rewound,
        forall|i: int| 2 <= i < events.len() - 2 ==> #[trigger] events[i] == if i % 2 == 0 {
            Event::ChunkRead
        } else {
            Event::ChunkCopied
        },
{
    lemma_run(events);
}

/// How the events came so far.
proof fn lemma_run(events: Seq<Event>)
    ensures
        match after_all(events) {
            Some(Next::Go { step: Step::OpenTempfile }) => events.len() == 0,
            Some(Next::Go { step: Step::SendRequest }) => events.len() == 1 && events[0]
                == Event::TempfileOpened,
            Some(Next::Go { step: Step::ReadChunk }) => events.len() % 2 == 0 && is_body(
                events,
                events.len() as int,
            ),
            Some(Next::Go { step: Step::CopyChunk }) => events.len() % 2 == 1 && is_body(
                events,
                events.len() as int,
            ),
            Some(Next::Go { step: Step::Rewind }) => is_body(events, events.len() - 1)
                && events.last() == Event::BodyEnded,
            Some(Next::Finish) => is_body(events, events.len() - 2) && events[events.len() - 2]
                == Event::BodyEnded && events.last() == Event::Rewound,
            _ => true,
        },
    decreases events.len(),
{
    if events.len() > 0 {
        let before = events.drop_last();
        lemma_run(before);
        assert forall|n: int| 0 <= n <= before.len() && #[trigger] is_body(
            before,
            n,
        ) implies is_body(events, n) by {
            assert forall|i: int| 2 <= i < n implies #[trigger] events[i] == if i % 2 == 0 {
                Event::ChunkRead
            } else {
                Event::ChunkCopied
            } by {
                assert(events[i] == before[i]);
            }
        }
        match after_all(before) {
            Some(Next::Go { step: Step::ReadChunk }) => {
                assert(is_body(events, before.len() as int));
            },
            Some(Next::Go { step: Step::CopyChunk }) => {
                assert(is_body(events, before.len() as int));
            },
            Some(Next::Go { step: Step::Rewind }) => {
                assert(is_body(events, before.len() - 1));
                assert(events[events.len() - 2] == before.last());
            },
            _ => {},
        }
    }
}

/// Whether the first `n` events are a successful response and pieces of its body.
spec fn is_body(events: Seq<Event>, n: int) -> bool {
    &&& 2 <= n <= events.len()
    &&& events[0] == Event::TempfileOpened
    &&& events[1] matches Event::Responded { status } && is_success(status)
    &&& forall|i: int| 2 <= i < n ==> #[trigger] events[i] == if i % 2 == 0 {
        Event::ChunkRead
    } else {
        Event::ChunkCopied
    }
}

/// Whether an attempt that came to this end is followed by another one, `attempts` being those that
/// were made.
pub open spec fn goes_on(attempts: nat, end: Next) -> bool {
    end matches Next::Stop { is_transient, .. } && is_repeated(attempts, is_transient)
}

/// The number of the last attempt that is made, counted from zero, where `ends` says how each one
/// ends, and the attempts before the one with number `i` were followed by others.
pub open spec fn last_attempt(ends: spec_fn(nat) -> Next, i: nat) -> nat
    decreases MAX_ATTEMPTS + 1 - i,
{
    if goes_on(i + 1, ends(i)) {
        last_attempt(ends, i + 1)
    } else {
        i
    }
}

/// Whether an attempt that came to this end failed in a way that may not come again.
pub open spec fn fails_for_now(end: Next) -> bool {
    end matches Next::Stop { is_transient, .. } && is_transient
}

/// How a fetch ends. There is one attempt, and no more repetitions than there may be; each but the
/// last failed in a way that may not come again. The last one has the file, or failed for good, or
/// was the last that there may be. A file is fetched exactly if one of the attempts that there may
/// be has it, and all before it failed in a way that may not come again.
pub proof fn law_attempts_are_limited(ends: spec_fn(nat) -> Next)
    requires
        forall|i: nat| !(#[trigger] ends(i) is Go),
    ensures
        ({
            let last = last_attempt(ends, 0);
            &&& last <= MAX_ATTEMPTS
            &&& forall|i: nat| i < last ==> fails_for_now(#[trigger] ends(i))
            &&& fails_for_now(ends(last)) ==> last == MAX_ATTEMPTS
            &&& ends(last) is Finish <==> exists|i: nat|
                {
                    &&& i <= MAX_ATTEMPTS
                    &&& #[trigger] ends(i) is Finish
                    &&& forall|j: nat| j < i ==> fails_for_now(#[trigger] ends(j))
                }
            &&& ends(last) is Stop <==> !(ends(last) is Finish)
        }),
{
    let last = last_attempt(ends, 0);
    lemma_last_attempt(ends, 0);
    assert forall|i: nat|
        i <= MAX_ATTEMPTS && #[trigger] ends(i) is Finish && (forall|j: nat|
            j < i ==> fails_for_now(#[trigger] ends(j))) implies i == last by {
        if i < last {
            assert(fails_for_now(ends(i)));
        } else if last < i {
            assert(fails_for_now(ends(last)));
        }
    }
}

proof fn lemma_last_attempt(ends: spec_fn(nat) -> Next, i: nat)
    requires
        i <= MAX_ATTEMPTS,
    ensures
        ({
            let last = last_attempt(ends, i);
            &&& i <= last <= MAX_ATTEMPTS
            &&& forall|j: nat| i <= j < last ==> fails_for_now(#[trigger] ends(j))
            &&& fails_for_now(ends(last)) ==> last == MAX_ATTEMPTS
        }),
    decreases MAX_ATTEMPTS - i,
{
    if goes_on(i + 1, ends(i)) && i < MAX_ATTEMPTS {
        lemma_last_attempt(ends, i + 1);
    }
}

/// Why an attempt fails, and whether it may be repeated: it may if the request could not be sent, if
/// the response says that it was not successful, or if the body broke off, and not if the temporary
/// file could not be opened, written or rewound.
pub proof fn law_network_failures_are_transient(events: Seq<Event>)
    requires
        after_all(events) is Some,
        after_all(events)->Some_0 is Stop,
    ensures
        events.len() > 0,
        match events.last() {
            Event::Responded { status } => !is_success(status) && after_all(events) == Some(
                Next::Stop { failure: Failure::Status { status }, is_transient: true },
            ),
            Event::Failed { step } => after_all(events) == Some(
                Next::Stop {
                    failure: Failure::Step { step },
                    is_transient: match step {
                        Step::SendRequest => true,
                        Step::ReadChunk => true,
                        Step::OpenTempfile => false,
                        Step::CopyChunk => false,
                        Step::Rewind => false,
                    },
                },
            ),
            _ => false,
        },
{
}

/// A request to a registry that has a token is authenticated: with registries as a configuration
/// names them, and tokens that were put in order, the request gets the token of a registry that it
/// is for, and no longer one is it for.
pub proof fn law_registries_with_tokens_are_authenticated(
    registries: Seq<NpmRegistry>,
    tokens: Seq<(Seq<char>, Seq<char>)>,
    url: Seq<char>,
    i: int,
)
    requires
        yarnrc::is_ordering_of(tokens, yarnrc::normalized_pairs(yarnrc::with_token(registries))),
        0 <= i < yarnrc::with_token(registries).len(),
        yarnrc::covers(
            yarnrc::normalized(yarnrc::with_token(registries)[i].0),
            yarnrc::normalized(url),
        ),
    ensures
        ({
            let known = yarnrc::with_token(registries);
            let to = yarnrc::normalized(url);
            &&& yarnrc::first_token(tokens, to) is Some
            &&& exists|j: int|
                {
                    &&& 0 <= j < known.len()
                    &&& Some((#[trigger] known[j]).1) == yarnrc::first_token(tokens, to)
                    &&& yarnrc::covers(yarnrc::normalized(known[j].0), to)
                    &&& text::byte_len(yarnrc::normalized(known[i].0)) <= text::byte_len(
                        yarnrc::normalized(known[j].0),
                    )
                }
        }),
{
    let known = yarnrc::with_token(registries);
    let pairs = yarnrc::normalized_pairs(known);
    let to = yarnrc::normalized(url);
    yarnrc::law_loaded_tokens_are_in_order(tokens, pairs);
    yarnrc::law_longest_registry_wins(tokens, to);
    yarnrc::lemma_every_pair_is_there(tokens, pairs, i);
    let at = choose|at: int| 0 <= at < tokens.len() && #[trigger] tokens[at] == pairs[i];
    assert(yarnrc::covers(tokens[at].0, to));
    let k = choose|k: int|
        {
            &&& 0 <= k < tokens.len()
            &&& Some((#[trigger] tokens[k]).1) == yarnrc::first_token(tokens, to)
            &&& yarnrc::covers(tokens[k].0, to)
            &&& forall|m: int|
                0 <= m < tokens.len() && yarnrc::covers((#[trigger] tokens[m]).0, to)
                    ==> text::byte_len(tokens[m].0) <= text::byte_len(tokens[k].0)
        };
    let from = choose|from: Seq<int>| yarnrc::put_in_order(tokens, pairs, from);
    assert(0 <= from[k] < pairs.len());
    assert(tokens[k] == pairs[from[k]]);
    assert(known[from[k]].1 == tokens[k].1);
}

/// The statuses from 200 to 299 are successful, and no others.
pub proof fn law_two_hundreds_are_successful(status: u16)
    ensures
        is_success(status) <==> status as int / 100 == 2,
        next_of(Event::Responded { status }) is Go <==> status as int / 100 == 2,
{
}

/// Before each attempt but the first it is said how many were repeated, and for which URL.
pub proof fn law_repetitions_are_announced(attempt: nat, url: Seq<char>)
    ensures
        retry_text(0, url) is None,
        retry_text(attempt + 1, url) == Some(
            "Failed to fetch (on try "@ + decimal::written(attempt) + "/5): "@ + url,
        ),
{
    reveal_strlit("/5): ");
    reveal_strlit("/");
    reveal_strlit("): ");
    assert(decimal::written(5) =~= seq!['5']);
    let head = "Failed to fetch (on try "@ + decimal::written(attempt);
    assert("/5): "@ =~= "/"@ + seq!['5'] + "): "@);
    assert(retry_text(attempt + 1, url)->Some_0 =~= head + "/5): "@ + url);
}

} // verus!
