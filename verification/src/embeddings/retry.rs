//! When to ask a service again.

use vstd::prelude::*;

verus! {

/// How often a failed request to a llama.cpp server is repeated.
pub const MAX_ATTEMPTS: u64 = 3;

/// A service that is asked for embeddings.
#[derive(Clone, Copy, PartialEq, Eq, Structural, Debug)]
pub enum Service {
    LlamaServer,
    Ollama,
}

/// How often a failed request to a service is repeated. Ollama is asked only once.
pub open spec fn max_repeats(service: Service) -> u64 {
    match service {
        Service::LlamaServer => MAX_ATTEMPTS,
        Service::Ollama => 0,
    }
}

/// What to do about a reply.
#[derive(Clone, Copy, PartialEq, Eq, Structural, Debug)]
pub enum RetryAction {
    /// Read the reply.
    Accept,
    /// Wait and ask again.
    Wait { seconds: u64 },
    /// Give up.
    Fail,
}

/// What to do about a reply after so many repetitions.
pub open spec fn decision(service: Service, attempts: u64, ok: bool) -> RetryAction {
    if ok {
        RetryAction::Accept
    } else if attempts < max_repeats(service) {
        RetryAction::Wait { seconds: (attempts + 1) as u64 }
    } else {
        RetryAction::Fail
    }
}

/// How many requests are sent and how many seconds are waited, and whether a reply is
/// accepted in the end, where `replies` says which requests would do well.
pub open spec fn course(service: Service, replies: Seq<bool>, attempts: u64) -> (nat, nat, bool)
    decreases replies.len(),
{
    if replies.len() == 0 {
        (0, 0, false)
    } else {
        match decision(service, attempts, replies[0]) {
            RetryAction::Accept => (1, 0, true),
            RetryAction::Wait { seconds } => {
                let rest = course(service, replies.drop_first(), (attempts + 1) as u64);
                (rest.0 + 1, rest.1 + seconds as nat, rest.2)
            },
            RetryAction::Fail => (1, 0, false),
        }
    }
}

/// A llama.cpp server is asked four times at most, with six seconds of waiting at most,
/// and is given up only if it failed each of the four times.
pub proof fn lemma_given_up_after_four_failures(replies: Seq<bool>)
    ensures
        course(Service::LlamaServer, replies, 0).0 <= MAX_ATTEMPTS + 1,
        course(Service::LlamaServer, replies, 0).1 <= 6,
        course(Service::LlamaServer, replies, 0).2 <==> exists|i: int|
            0 <= i < replies.len() && i <= MAX_ATTEMPTS && #[trigger] replies[i],
{
    let after_one = replies.drop_first();
    let after_two = after_one.drop_first();
    let after_three = after_two.drop_first();
    reveal_with_fuel(course, 5);
    if replies.len() > 1 {
        assert(after_one[0] == replies[1]);
    }
    if replies.len() > 2 {
        assert(after_two[0] == replies[2]);
    }
    if replies.len() > 3 {
        assert(after_three[0] == replies[3]);
    }
}

/// Ollama is asked once, without waiting, and its first reply decides.
pub proof fn lemma_ollama_is_asked_once(replies: Seq<bool>)
    requires
        replies.len() > 0,
    ensures
        course(Service::Ollama, replies, 0) == (1nat, 0nat, replies[0]),
{
}

/// Where a request failed.
#[derive(Clone, Copy, PartialEq, Eq, Structural, Debug)]
pub enum Stage {
    /// There was no answer.
    Request,
    /// The answer was an error.
    Status,
    /// The answer could not be read.
    Parse,
}

/// A reply to a request, with what the connection said of a failure.
pub enum Reply<T> {
    NoAnswer(String),
    /// The answer was an error.
    Refused(String),
    /// The request was accepted, but the answer could not be read.
    Unreadable(String),
    Read(T),
}

/// Why a service gave nothing for an image.
pub struct AskError {
    pub stage: Stage,
    pub detail: String,
}

/// What a reply leads to.
pub enum Step<T> {
    /// Wait and ask again.
    Wait { seconds: u64 },
    /// This is the answer.
    Read(T),
    /// There is none.
    Failed(AskError),
}

/// Whether a reply is a failure that may be repeated.
pub open spec fn failed<T>(reply: Reply<T>) -> bool {
    reply is NoAnswer || reply is Refused
}

/// What a reply leads to after so many repetitions.
pub open spec fn step_after<T>(service: Service, attempts: u64, reply: Reply<T>) -> Step<T> {
    match (reply, decision(service, attempts, !failed(reply))) {
        (Reply::Read(answer), _) => Step::Read(answer),
        (Reply::Unreadable(detail), _) => Step::Failed(AskError { stage: Stage::Parse, detail }),
        (_, RetryAction::Wait { seconds }) => Step::Wait { seconds },
        (Reply::NoAnswer(detail), _) => Step::Failed(AskError { stage: Stage::Request, detail }),
        (Reply::Refused(detail), _) => Step::Failed(AskError { stage: Stage::Status, detail }),
    }
}

/// The failures so far.
pub struct Retry {
    pub service: Service,
    pub attempts: u64,
}

impl Retry {
    pub fn new(service: Service) -> (r: Retry)
        ensures
            r.service == service,
            r.attempts == 0,
    {
        Retry { service, attempts: 0 }
    }

    /// What to do, where `ok` says whether the service answered and accepted the
    /// request: after each failure wait a second longer than before, and after the
    /// last repetition give up.
    pub fn on_reply(&mut self, ok: bool) -> (action: RetryAction)
        ensures
            action == decision(old(self).service, old(self).attempts, ok),
            ok ==> action == RetryAction::Accept,
            !ok && old(self).service == Service::Ollama ==> action == RetryAction::Fail,
            !ok && old(self).service == Service::LlamaServer && old(self).attempts < 3 ==> action
                == (RetryAction::Wait { seconds: (old(self).attempts + 1) as u64 }),
            !ok && old(self).service == Service::LlamaServer && old(self).attempts >= 3 ==> action
                == RetryAction::Fail,
            final(self).service == old(self).service,
            final(self).attempts == (if action is Wait {
                old(self).attempts + 1
            } else {
                old(self).attempts as int
            }),
    {
        let repeats: u64 = match self.service {
            Service::LlamaServer => MAX_ATTEMPTS,
            Service::Ollama => 0,
        };
        if ok {
            RetryAction::Accept
        } else if self.attempts < repeats {
            self.attempts = self.attempts + 1;
            RetryAction::Wait { seconds: self.attempts }
        } else {
            RetryAction::Fail
        }
    }

    /// What a reply leads to. An answer that cannot be read is not asked for again.
    pub fn settle<T>(&mut self, reply: Reply<T>) -> (step: Step<T>)
        ensures
            step == step_after(old(self).service, old(self).attempts, reply),
            reply matches Reply::Read(answer) ==> step == Step::Read(answer),
            reply matches Reply::Unreadable(detail) ==> step == Step::<T>::Failed(
                (AskError { stage: Stage::Parse, detail }),
            ),
            (reply is NoAnswer || reply is Refused) && old(self).service == Service::LlamaServer
                && old(self).attempts < 3 ==> step == (Step::<T>::Wait {
                seconds: (old(self).attempts + 1) as u64,
            }),
            reply matches Reply::NoAnswer(detail) ==> old(self).service == Service::Ollama
                || old(self).attempts >= 3 ==> step == Step::<T>::Failed(
                (AskError { stage: Stage::Request, detail }),
            ),
            reply matches Reply::Refused(detail) ==> old(self).service == Service::Ollama
                || old(self).attempts >= 3 ==> step == Step::<T>::Failed(
                (AskError { stage: Stage::Status, detail }),
            ),
            final(self).service == old(self).service,
            final(self).attempts == (if step is Wait {
                old(self).attempts + 1
            } else {
                old(self).attempts as int
            }),
    {
        match reply {
            Reply::Read(answer) => Step::Read(answer),
            Reply::Unreadable(detail) => Step::Failed(AskError { stage: Stage::Parse, detail }),
            Reply::NoAnswer(detail) => match self.on_reply(false) {
                RetryAction::Wait { seconds } => Step::Wait { seconds },
                _ => Step::Failed(AskError { stage: Stage::Request, detail }),
            },
            Reply::Refused(detail) => match self.on_reply(false) {
                RetryAction::Wait { seconds } => Step::Wait { seconds },
                _ => Step::Failed(AskError { stage: Stage::Status, detail }),
            },
        }
    }
}

/// What asking comes to, where `replies` holds what the requests are answered one after
/// another; `None` where the replies end before that.
pub open spec fn settled<T>(service: Service, replies: Seq<Reply<T>>, attempts: u64) -> Option<
    Result<T, AskError>,
>
    decreases replies.len(),
{
    if replies.len() == 0 {
        None
    } else {
        match step_after(service, attempts, replies[0]) {
            Step::Wait { seconds } => settled(service, replies.drop_first(), (attempts + 1) as u64),
            Step::Read(answer) => Some(Ok(answer)),
            Step::Failed(e) => Some(Err(e)),
        }
    }
}

/// Reply `t` is the first that the service accepted, it came in time, and it can be read.
pub open spec fn good_at<T>(service: Service, replies: Seq<Reply<T>>, attempts: u64, t: int) -> bool {
    &&& 0 <= t < replies.len()
    &&& attempts + t <= max_repeats(service)
    &&& replies[t] is Read
    &&& forall|j: int| 0 <= j < t ==> failed(#[trigger] replies[j])
}

proof fn lemma_good_reply_is_taken<T>(
    service: Service,
    replies: Seq<Reply<T>>,
    attempts: u64,
    t: int,
)
    requires
        good_at(service, replies, attempts, t),
    ensures
        settled(service, replies, attempts) == Some(Ok::<T, AskError>(replies[t]->Read_0)),
    decreases t,
{
    if t > 0 {
        let rest = replies.drop_first();
        assert(failed(replies[0]));
        assert forall|j: int| 0 <= j < t - 1 implies failed(#[trigger] rest[j]) by {
            assert(failed(replies[j + 1]));
        }
        assert(rest[t - 1] == replies[t]);
        lemma_good_reply_is_taken(service, rest, (attempts + 1) as u64, t - 1);
    }
}

proof fn lemma_taken_reply_is_good<T>(
    service: Service,
    replies: Seq<Reply<T>>,
    attempts: u64,
) -> (t: int)
    requires
        settled(service, replies, attempts) is Some,
        settled(service, replies, attempts)->0 is Ok,
        attempts <= max_repeats(service),
    ensures
        good_at(service, replies, attempts, t),
    decreases replies.len(),
{
    if replies[0] is Read {
        0
    } else {
        let rest = replies.drop_first();
        let t = lemma_taken_reply_is_good(service, rest, (attempts + 1) as u64);
        assert forall|j: int| 0 <= j < t + 1 implies failed(#[trigger] replies[j]) by {
            if j > 0 {
                assert(failed(rest[j - 1]));
            }
        }
        t + 1
    }
}

/// An image gets its answer exactly if the first reply that the service accepts comes in
/// time and can be read, and that reply is the answer. With a reply to each request, asking
/// comes to an end.
pub proof fn lemma_first_accepted_reply_decides<T>(service: Service, replies: Seq<Reply<T>>)
    ensures
        settled(service, replies, 0) is Some && settled(service, replies, 0)->0 is Ok <==> exists|
            t: int,
        |
            good_at(service, replies, 0, t),
        forall|t: int| #[trigger]
            good_at(service, replies, 0, t) ==> settled(service, replies, 0) == Some(
                Ok::<T, AskError>(replies[t]->Read_0),
            ),
        replies.len() > max_repeats(service) ==> settled(service, replies, 0) is Some,
{
    assert forall|t: int| #[trigger] good_at(service, replies, 0, t) implies settled(
        service,
        replies,
        0,
    ) == Some(Ok::<T, AskError>(replies[t]->Read_0)) by {
        lemma_good_reply_is_taken(service, replies, 0, t);
    }
    if settled(service, replies, 0) is Some && settled(service, replies, 0)->0 is Ok {
        let t = lemma_taken_reply_is_good(service, replies, 0);
        assert(good_at(service, replies, 0, t));
    }
    if replies.len() > max_repeats(service) {
        lemma_enough_replies_settle(service, replies, 0);
    }
}

proof fn lemma_enough_replies_settle<T>(service: Service, replies: Seq<Reply<T>>, attempts: u64)
    requires
        attempts <= max_repeats(service),
        attempts + replies.len() > max_repeats(service),
    ensures
        settled(service, replies, attempts) is Some,
    decreases replies.len(),
{
    if step_after(service, attempts, replies[0]) is Wait {
        lemma_enough_replies_settle(service, replies.drop_first(), (attempts + 1) as u64);
    }
}

pub open spec fn failure_text(service: Service, stage: Stage) -> Seq<char> {
    match (service, stage) {
        (Service::LlamaServer, Stage::Request) => "llama-server request failed: "@,
        (Service::LlamaServer, Stage::Status) => "llama-server returned error: "@,
        (Service::LlamaServer, Stage::Parse) => "failed to parse llama-server response: "@,
        (Service::Ollama, Stage::Request) => "ollama request failed: "@,
        (Service::Ollama, Stage::Status) => "ollama returned error: "@,
        (Service::Ollama, Stage::Parse) => "failed to parse ollama response: "@,
    }
}

/// What to say of a failure, with what the connection said of it.
pub fn failure_message(service: Service, stage: Stage, detail: &str) -> (s: String)
    ensures
        s@ == failure_text(service, stage) + detail@,
        service == Service::LlamaServer && stage == Stage::Request ==> s@
            == "llama-server request failed: "@ + detail@,
        service == Service::LlamaServer && stage == Stage::Status ==> s@
            == "llama-server returned error: "@ + detail@,
        service == Service::LlamaServer && stage == Stage::Parse ==> s@
            == "failed to parse llama-server response: "@ + detail@,
        service == Service::Ollama && stage == Stage::Request ==> s@ == "ollama request failed: "@
            + detail@,
        service == Service::Ollama && stage == Stage::Status ==> s@ == "ollama returned error: "@
            + detail@,
        service == Service::Ollama && stage == Stage::Parse ==> s@
            == "failed to parse ollama response: "@ + detail@,
{
    let front = match (service, stage) {
        (Service::LlamaServer, Stage::Request) => "llama-server request failed: ",
        (Service::LlamaServer, Stage::Status) => "llama-server returned error: ",
        (Service::LlamaServer, Stage::Parse) => "failed to parse llama-server response: ",
        (Service::Ollama, Stage::Request) => "ollama request failed: ",
        (Service::Ollama, Stage::Status) => "ollama returned error: ",
        (Service::Ollama, Stage::Parse) => "failed to parse ollama response: ",
    };
    let mut s = String::new();
    s.push_str(front);
    s.push_str(detail);
    assert(s@ =~= failure_text(service, stage) + detail@);
    s
}

/// How often the services are asked again.
pub proof fn lemma_repeats_of_the_services()
    ensures
        max_repeats(Service::LlamaServer) == 3,
        max_repeats(Service::Ollama) == 0,
{
}

/// A reply that a service accepted and that can be read ends the asking, whatever came
/// before it in time; one that cannot be read ends it without an answer.
pub proof fn lemma_accepted_replies_end_the_asking<T>(
    service: Service,
    earlier: Seq<Reply<T>>,
    reply: Reply<T>,
    later: Seq<Reply<T>>,
)
    requires
        forall|j: int|
            0 <= j < earlier.len() ==> (#[trigger] earlier[j]) is NoAnswer || earlier[j] is Refused,
        service == Service::LlamaServer ==> earlier.len() <= 3,
        service == Service::Ollama ==> earlier.len() == 0,
        reply is Read || reply is Unreadable,
    ensures
        reply matches Reply::Read(answer) ==> settled(service, earlier + seq![reply] + later, 0)
            == Some(Ok::<T, AskError>(answer)),
        reply matches Reply::Unreadable(detail) ==> settled(
            service,
            earlier + seq![reply] + later,
            0,
        ) == Some(Err::<T, AskError>((AskError { stage: Stage::Parse, detail }))),
{
    lemma_accepted_reply_after(service, earlier, reply, later, 0);
}

proof fn lemma_accepted_reply_after<T>(
    service: Service,
    earlier: Seq<Reply<T>>,
    reply: Reply<T>,
    later: Seq<Reply<T>>,
    attempts: u64,
)
    requires
        forall|j: int|
            0 <= j < earlier.len() ==> (#[trigger] earlier[j]) is NoAnswer || earlier[j] is Refused,
        attempts + earlier.len() <= max_repeats(service),
        reply is Read || reply is Unreadable,
    ensures
        reply matches Reply::Read(answer) ==> settled(
            service,
            earlier + seq![reply] + later,
            attempts,
        ) == Some(Ok::<T, AskError>(answer)),
        reply matches Reply::Unreadable(detail) ==> settled(
            service,
            earlier + seq![reply] + later,
            attempts,
        ) == Some(Err::<T, AskError>((AskError { stage: Stage::Parse, detail }))),
    decreases earlier.len(),
{
    let all = earlier + seq![reply] + later;
    if earlier.len() == 0 {
        assert(all[0] == reply);
    } else {
        let rest = earlier.drop_first();
        assert(all[0] == earlier[0]);
        assert(all.drop_first() =~= rest + seq![reply] + later);
        assert forall|j: int| 0 <= j < rest.len() implies (#[trigger] rest[j]) is NoAnswer || rest[j]
            is Refused by {
            assert(rest[j] == earlier[j + 1]);
        }
        lemma_accepted_reply_after(service, rest, reply, later, (attempts + 1) as u64);
    }
}

/// A service that fails every time is given up with what was said of the last failure in
/// time: the fourth with a llama.cpp server, the first with Ollama.
pub proof fn lemma_last_failure_is_reported<T>(replies: Seq<Reply<T>>)
    requires
        replies.len() > 3,
        forall|j: int| 0 <= j < 4 ==> (#[trigger] replies[j]) is NoAnswer || replies[j] is Refused,
    ensures
        settled(Service::LlamaServer, replies, 0) is Some,
        settled(Service::LlamaServer, replies, 0)->0 is Err,
        replies[3] matches Reply::NoAnswer(detail) ==> (settled(
            Service::LlamaServer,
            replies,
            0,
        )->0)->Err_0 == (AskError { stage: Stage::Request, detail }),
        replies[3] matches Reply::Refused(detail) ==> (settled(
            Service::LlamaServer,
            replies,
            0,
        )->0)->Err_0 == (AskError { stage: Stage::Status, detail }),
        replies[0] matches Reply::Refused(detail) ==> settled(Service::Ollama, replies, 0) == Some(
            Err::<T, AskError>((AskError { stage: Stage::Status, detail })),
        ),
        replies[0] matches Reply::NoAnswer(detail) ==> settled(Service::Ollama, replies, 0) == Some(
            Err::<T, AskError>((AskError { stage: Stage::Request, detail })),
        ),
{
    reveal_with_fuel(settled, 5);
    let one = replies.drop_first();
    let two = one.drop_first();
    let three = two.drop_first();
    assert(one[0] == replies[1] && two[0] == replies[2] && three[0] == replies[3]);
    assert(replies[0] is NoAnswer || replies[0] is Refused);
    assert(replies[1] is NoAnswer || replies[1] is Refused);
    assert(replies[2] is NoAnswer || replies[2] is Refused);
    assert(replies[3] is NoAnswer || replies[3] is Refused);
}

} // verus!
