//! From the replies of a service to the embeddings of all images.
//!
//! The images are asked for side by side, so their results arrive in any order, and they
//! are kept in the order in which they arrive.

use vstd::prelude::*;

use crate::embeddings::centroid::{
    first_stacked, joined, lemma_joined_vectors_are_rows, stack_first_result, stack_of, stack_vectors, stacked, CentroidError,
    Stack,
};
use crate::embeddings::input::{source_error, EmbedInput};
use crate::embeddings::payload::{llama_request, ollama_request};
use crate::embeddings::plan::{is_request_list, RequestError, Requests};
use crate::embeddings::retry::{
    failure_message, failure_text, good_at, lemma_first_accepted_reply_decides, max_repeats,
    settled, AskError, Reply, Service,
};
use crate::ieee::Real32;
use crate::matrix::Matrix;

verus! {

/// The results that a llama.cpp server answers with, each a list of vectors.
pub type LlamaAnswer = Vec<Vec<Vec<Real32>>>;

/// The vectors that Ollama answers with.
pub type OllamaAnswer = Vec<Vec<Real32>>;

/// Why there is no embedding for an image.
pub enum EmbedError {
    Ask(AskError),
    Centroid(CentroidError),
}

impl EmbedError {
    pub open spec fn text(self, service: Service) -> Seq<char> {
        match self {
            EmbedError::Ask(e) => failure_text(service, e.stage) + e.detail@,
            EmbedError::Centroid(e) => e.text(),
        }
    }

    pub fn message(&self, service: Service) -> (s: String)
        ensures
            s@ == self.text(service),
            *self matches EmbedError::Ask(e) ==> s@ == failure_text(service, e.stage) + e.detail@,
            *self matches EmbedError::Centroid(e) ==> s@ == e.text(),
    {
        match self {
            EmbedError::Ask(e) => failure_message(service, e.stage, e.detail.as_str()),
            EmbedError::Centroid(e) => e.message(),
        }
    }
}

/// Why there are no embeddings.
pub enum RunError {
    Request(RequestError),
    Image(EmbedError),
}

impl RunError {
    /// What to say, where `endpoint` is what the address was put together with.
    pub fn message(&self, service: Service, endpoint: &str) -> (s: String)
        ensures
            s@ == (match *self {
                RunError::Request(e) => e.text(endpoint@),
                RunError::Image(e) => e.text(service),
            }),
    {
        match self {
            RunError::Request(e) => e.message(endpoint),
            RunError::Image(e) => e.message(service),
        }
    }
}

/// What to average for an image, or why there is nothing, from what asking came to and
/// from what its answer gives.
pub open spec fn outcome<T>(asked: Result<T, AskError>, give: spec_fn(T) -> Result<Stack, CentroidError>) -> Result<
    Stack,
    EmbedError,
> {
    match asked {
        Err(e) => Err(EmbedError::Ask(e)),
        Ok(answer) => match give(answer) {
            Err(e) => Err(EmbedError::Centroid(e)),
            Ok(stack) => Ok(stack),
        },
    }
}

pub open spec fn llama_gives() -> spec_fn(LlamaAnswer) -> Result<Stack, CentroidError> {
    |answer: LlamaAnswer| first_stacked(answer@)
}

pub open spec fn ollama_gives() -> spec_fn(OllamaAnswer) -> Result<Stack, CentroidError> {
    |answer: OllamaAnswer| stacked(answer@)
}

/// Whether `r` is the matrix, or the error, that `wanted` describes.
pub open spec fn is_outcome(wanted: Result<Stack, EmbedError>, r: Result<Matrix, EmbedError>) -> bool {
    match wanted {
        Ok(stack) => r is Ok && r->Ok_0.wf() && stack_of(r->Ok_0) == stack,
        Err(e) => r == Err::<Matrix, EmbedError>(e),
    }
}

/// Vectors of one length that fit into a matrix.
pub open spec fn fills_rows(vectors: Seq<Vec<Real32>>) -> bool {
    &&& vectors.len() > 0
    &&& vectors[0]@.len() > 0
    &&& vectors.len() * vectors[0]@.len() <= isize::MAX
    &&& forall|k: int| 0 <= k < vectors.len() ==> (#[trigger] vectors[k])@.len() == vectors[0]@.len()
}

/// The vectors are the rows of the matrix, one for one.
pub open spec fn are_rows(m: Matrix, vectors: Seq<Vec<Real32>>) -> bool {
    &&& m.n_rows == vectors.len()
    &&& m.n_cols == vectors[0]@.len()
    &&& forall|i: int| 0 <= i < vectors.len() ==> #[trigger] m.row(i) == vectors[i]@
}

/// What to average for an image that a llama.cpp server was asked for.
pub fn llama_outcome(asked: Result<LlamaAnswer, AskError>) -> (r: Result<Matrix, EmbedError>)
    ensures
        is_outcome(outcome(asked, llama_gives()), r),
        asked matches Err(e) ==> r == Err::<Matrix, EmbedError>(EmbedError::Ask(e)),
        asked matches Ok(answer) ==> answer@.len() == 0 ==> r == Err::<Matrix, EmbedError>(
            EmbedError::Centroid(CentroidError::NoResult),
        ),
        asked matches Ok(answer) ==> answer@.len() > 0 && answer@[0]@.len() == 0 ==> r == Err::<
            Matrix,
            EmbedError,
        >(EmbedError::Centroid(CentroidError::Empty)),
        asked matches Ok(answer) ==> answer@.len() > 0 ==> fills_rows(answer@[0]@) ==> {
            &&& r is Ok
            &&& are_rows(r->Ok_0, answer@[0]@)
        },
        asked matches Ok(answer) ==> answer@.len() > 0 ==> match stacked(answer@[0]@) {
            Ok(stack) => r is Ok && r->Ok_0.data@ == stack.data && r->Ok_0.n_rows == stack.n_rows
                && r->Ok_0.n_cols == stack.n_cols,
            Err(e) => r == Err::<Matrix, EmbedError>(EmbedError::Centroid(e)),
        },
{
    match asked {
        Err(e) => Err(EmbedError::Ask(e)),
        Ok(answer) => match stack_first_result(&answer) {
            Ok(m) => Ok(m),
            Err(e) => Err(EmbedError::Centroid(e)),
        },
    }
}

/// What to average for an image that Ollama was asked for.
pub fn ollama_outcome(asked: Result<OllamaAnswer, AskError>) -> (r: Result<Matrix, EmbedError>)
    ensures
        is_outcome(outcome(asked, ollama_gives()), r),
        asked matches Err(e) ==> r == Err::<Matrix, EmbedError>(EmbedError::Ask(e)),
        asked matches Ok(answer) ==> answer@.len() == 0 ==> r == Err::<Matrix, EmbedError>(
            EmbedError::Centroid(CentroidError::Empty),
        ),
        asked matches Ok(answer) ==> fills_rows(answer@) ==> r is Ok && are_rows(r->Ok_0, answer@),
        asked matches Ok(answer) ==> match stacked(answer@) {
            Ok(stack) => r is Ok && r->Ok_0.data@ == stack.data && r->Ok_0.n_rows == stack.n_rows
                && r->Ok_0.n_cols == stack.n_cols,
            Err(e) => r == Err::<Matrix, EmbedError>(EmbedError::Centroid(e)),
        },
{
    match asked {
        Err(e) => Err(EmbedError::Ask(e)),
        Ok(answer) => match stack_vectors(&answer) {
            Ok(m) => Ok(m),
            Err(e) => Err(EmbedError::Centroid(e)),
        },
    }
}

/// The numbers of all results, in the order in which they arrived; the first failure, if
/// there is one.
pub open spec fn gathered(results: Seq<Result<Vec<Real32>, EmbedError>>) -> Result<
    Seq<Real32>,
    EmbedError,
>
    decreases results.len(),
{
    if results.len() == 0 {
        Ok(Seq::empty())
    } else {
        match (gathered(results.drop_last()), results.last()) {
            (Err(e), _) => Err(e),
            (_, Err(e)) => Err(e),
            (Ok(values), Ok(more)) => Ok(values + more@),
        }
    }
}

/// What a run comes to: nothing where there was nothing to ask for, and no result at all
/// where one image failed.
pub open spec fn run_result(
    prepared: Result<Option<Requests>, RequestError>,
    results: Seq<Result<Vec<Real32>, EmbedError>>,
) -> Result<Seq<Real32>, RunError> {
    match prepared {
        Err(e) => Err(RunError::Request(e)),
        Ok(None) => Ok(Seq::empty()),
        Ok(Some(_)) => match gathered(results) {
            Err(e) => Err(RunError::Image(e)),
            Ok(values) => Ok(values),
        },
    }
}

/// Whether `r` holds the numbers, or the error, that `wanted` describes.
pub open spec fn is_run_result(wanted: Result<Seq<Real32>, RunError>, r: Result<
    Vec<Real32>,
    RunError,
>) -> bool {
    match wanted {
        Ok(values) => r is Ok && r->Ok_0@ == values,
        Err(e) => r == Err::<Vec<Real32>, RunError>(e),
    }
}

/// The embeddings of all images from the results in the order in which they arrived.
pub fn conclude(
    prepared: &Result<Option<Requests>, RequestError>,
    results: Vec<Result<Vec<Real32>, EmbedError>>,
) -> (r: Result<Vec<Real32>, RunError>)
    ensures
        is_run_result(run_result(*prepared, results@), r),
        *prepared matches Err(e) ==> r == Err::<Vec<Real32>, RunError>(RunError::Request(e)),
        *prepared == Ok::<Option<Requests>, RequestError>(None) ==> r is Ok && r->Ok_0@.len() == 0,
        *prepared is Ok && (*prepared)->Ok_0 is Some ==> (r is Ok <==> forall|i: int|
            0 <= i < results@.len() ==> (#[trigger] results@[i]) is Ok),
        *prepared is Ok && (*prepared)->Ok_0 is Some ==> forall|vectors: Seq<Vec<Real32>>|
            vectors.len() == results@.len() && (forall|i: int|
                0 <= i < vectors.len() ==> #[trigger] results@[i] == Ok::<Vec<Real32>, EmbedError>(
                    vectors[i],
                )) ==> r is Ok && r->Ok_0@ == #[trigger] joined(vectors),
        *prepared is Ok && (*prepared)->Ok_0 is Some && r is Err ==> exists|i: int|
            0 <= i < results@.len() && (#[trigger] results@[i]) is Err && r == Err::<
                Vec<Real32>,
                RunError,
            >(RunError::Image(results@[i]->Err_0)) && forall|j: int|
                0 <= j < i ==> (#[trigger] results@[j]) is Ok,
{
    match prepared {
        Err(e) => {
            return Err(RunError::Request(*e));
        },
        Ok(None) => {
            let none: Vec<Real32> = Vec::new();
            assert(none@ =~= Seq::empty());
            return Ok(none);
        },
        Ok(Some(_)) => {},
    }
    let ghost all = results@;
    proof {
        assert forall|vectors: Seq<Vec<Real32>>|
            vectors.len() == all.len() && (forall|i: int|
                0 <= i < vectors.len() ==> #[trigger] all[i] == Ok::<Vec<Real32>, EmbedError>(
                    vectors[i],
                )) implies gathered(all) == Ok::<Seq<Real32>, EmbedError>(
            #[trigger] joined(vectors),
        ) by {
            lemma_gathered_is_joined(all, vectors);
        }
    }
    let mut values: Vec<Real32> = Vec::new();
    assert(all.take(0) =~= Seq::empty());
    for one in walk: results
        invariant
            walk.seq() == all,
            *prepared is Ok,
            (*prepared)->Ok_0 is Some,
            gathered(all.take(walk.index() as int)) == Ok::<Seq<Real32>, EmbedError>(values@),
            forall|j: int| 0 <= j < walk.index() ==> (#[trigger] all[j]) is Ok,
            forall|vectors: Seq<Vec<Real32>>|
                vectors.len() == all.len() && (forall|i: int|
                    0 <= i < vectors.len() ==> #[trigger] all[i] == Ok::<Vec<Real32>, EmbedError>(
                        vectors[i],
                    )) ==> gathered(all) == Ok::<Seq<Real32>, EmbedError>(
                    #[trigger] joined(vectors),
                ),
    {
        let ghost i = walk.index() as int;
        assert(all.take(i + 1).drop_last() =~= all.take(i));
        match one {
            Ok(mut more) => {
                values.append(&mut more);
            },
            Err(e) => {
                proof {
                    lemma_first_failure_decides(all, i);
                    assert(all[i] is Err);
                }
                return Err(RunError::Image(e));
            },
        }
    }
    assert(all.take(all.len() as int) =~= all);
    Ok(values)
}

/// Once an image has failed, what arrives behind it makes no difference.
pub proof fn lemma_first_failure_decides(results: Seq<Result<Vec<Real32>, EmbedError>>, at: int)
    requires
        0 <= at < results.len(),
        results[at] is Err,
    ensures
        gathered(results) == gathered(results.take(at + 1)),
        gathered(results) is Err,
    decreases results.len(),
{
    if at == results.len() - 1 {
        assert(results.take(at + 1) =~= results);
    } else {
        lemma_first_failure_decides(results.drop_last(), at);
        assert(results.drop_last().take(at + 1) =~= results.take(at + 1));
    }
}

/// `order` lists each of the numbers below `n` once.
pub open spec fn is_order(order: Seq<int>, n: int) -> bool {
    &&& order.len() == n
    &&& order.no_duplicates()
    &&& forall|k: int| 0 <= k < n ==> 0 <= #[trigger] order[k] < n
    &&& forall|i: int| 0 <= i < n ==> #[trigger] order.contains(i)
}

/// The results of the images as they arrive, where `average` is what is made of the
/// vectors of an image.
pub open spec fn arrivals(
    outcomes: Seq<Result<Stack, EmbedError>>,
    order: Seq<int>,
    average: spec_fn(Stack) -> Vec<Real32>,
) -> Seq<Result<Vec<Real32>, EmbedError>> {
    Seq::new(
        order.len(),
        |k: int|
            match outcomes[order[k]] {
                Ok(stack) => Ok(average(stack)),
                Err(e) => Err(e),
            },
    )
}

/// The averages of the images in the order in which they arrive.
pub open spec fn averages(
    outcomes: Seq<Result<Stack, EmbedError>>,
    order: Seq<int>,
    average: spec_fn(Stack) -> Vec<Real32>,
) -> Seq<Vec<Real32>> {
    Seq::new(order.len(), |k: int| average(outcomes[order[k]]->Ok_0))
}

proof fn lemma_gathered_is_joined(
    results: Seq<Result<Vec<Real32>, EmbedError>>,
    vectors: Seq<Vec<Real32>>,
)
    requires
        results.len() == vectors.len(),
        forall|k: int|
            0 <= k < results.len() ==> #[trigger] results[k] == Ok::<Vec<Real32>, EmbedError>(
                vectors[k],
            ),
    ensures
        gathered(results) == Ok::<Seq<Real32>, EmbedError>(joined(vectors)),
    decreases results.len(),
{
    if results.len() > 0 {
        let shorter = results.drop_last();
        assert forall|k: int| 0 <= k < shorter.len() implies #[trigger] shorter[k] == Ok::<
            Vec<Real32>,
            EmbedError,
        >(vectors.drop_last()[k]) by {
            assert(results[k] == Ok::<Vec<Real32>, EmbedError>(vectors[k]));
        }
        lemma_gathered_is_joined(shorter, vectors.drop_last());
        assert(results[results.len() - 1] == Ok::<Vec<Real32>, EmbedError>(vectors.last()));
    }
}

/// In whatever order the images arrive, the run does well exactly if every image does, and
/// the averages of all images, each once, are what it comes to.
pub proof fn lemma_every_image_counts_once(
    outcomes: Seq<Result<Stack, EmbedError>>,
    order: Seq<int>,
    average: spec_fn(Stack) -> Vec<Real32>,
)
    requires
        is_order(order, outcomes.len() as int),
    ensures
        gathered(arrivals(outcomes, order, average)) is Ok <==> forall|i: int|
            0 <= i < outcomes.len() ==> (#[trigger] outcomes[i]) is Ok,
        gathered(arrivals(outcomes, order, average)) matches Ok(values) ==> values == joined(
            averages(outcomes, order, average),
        ),
{
    let results = arrivals(outcomes, order, average);
    if forall|i: int| 0 <= i < outcomes.len() ==> (#[trigger] outcomes[i]) is Ok {
        assert forall|k: int| 0 <= k < results.len() implies #[trigger] results[k] == Ok::<
            Vec<Real32>,
            EmbedError,
        >(averages(outcomes, order, average)[k]) by {
            assert(outcomes[order[k]] is Ok);
        }
        lemma_gathered_is_joined(results, averages(outcomes, order, average));
    } else {
        let i = choose|i: int| 0 <= i < outcomes.len() && !((#[trigger] outcomes[i]) is Ok);
        assert(order.contains(i));
        let k = choose|k: int| 0 <= k < order.len() && order[k] == i;
        assert(results[k] is Err);
        lemma_first_failure_decides(results, k);
    }
}

/// What each image comes to, where `replies` holds what the requests for it are answered.
pub open spec fn outcomes_of<T>(
    service: Service,
    replies: Seq<Seq<Reply<T>>>,
    give: spec_fn(T) -> Result<Stack, CentroidError>,
) -> Seq<Result<Stack, EmbedError>> {
    Seq::new(replies.len(), |i: int| outcome(settled(service, replies[i], 0)->0, give))
}

/// Whether reply `t` gives an image its embedding: it is the first that the service
/// accepted, it came in time and can be read, and there is something in it to average.
pub open spec fn serves<T>(
    service: Service,
    replies: Seq<Reply<T>>,
    give: spec_fn(T) -> Result<Stack, CentroidError>,
    t: int,
) -> bool {
    good_at(service, replies, 0, t) && give(replies[t]->Read_0) is Ok
}

/// Whether an image gets its embedding.
pub open spec fn is_served<T>(
    service: Service,
    replies: Seq<Reply<T>>,
    give: spec_fn(T) -> Result<Stack, CentroidError>,
) -> bool {
    exists|t: int| serves(service, replies, give, t)
}

proof fn lemma_outcome_of_replies<T>(
    service: Service,
    replies: Seq<Reply<T>>,
    give: spec_fn(T) -> Result<Stack, CentroidError>,
)
    requires
        replies.len() > max_repeats(service),
    ensures
        outcome(settled(service, replies, 0)->0, give) is Ok <==> is_served(service, replies, give),
        forall|t: int| #[trigger]
            serves(service, replies, give, t) ==> outcome(settled(service, replies, 0)->0, give)
                == Ok::<Stack, EmbedError>(give(replies[t]->Read_0)->Ok_0),
{
    lemma_first_accepted_reply_decides(service, replies);
    if outcome(settled(service, replies, 0)->0, give) is Ok {
        let t = choose|t: int| good_at(service, replies, 0, t);
        assert(serves(service, replies, give, t));
    }
}

/// What the two services have in common: a run does well exactly if the images can be
/// asked for and each is served, and it comes to the averages of all images, each once.
proof fn lemma_run<T>(
    service: Service,
    input: EmbedInput,
    url: Option<Seq<char>>,
    body: spec_fn(Seq<char>) -> Seq<char>,
    prepared: Result<Option<Requests>, RequestError>,
    replies: Seq<Seq<Reply<T>>>,
    give: spec_fn(T) -> Result<Stack, CentroidError>,
    order: Seq<int>,
    average: spec_fn(Stack) -> Vec<Real32>,
)
    requires
        is_request_list(input, url, body, prepared),
        replies.len() == input.cells@.len(),
        forall|i: int| 0 <= i < replies.len() ==> (#[trigger] replies[i]).len() > max_repeats(service),
        is_order(order, replies.len() as int),
    ensures
        ({
            let outcomes = outcomes_of(service, replies, give);
            let r = run_result(prepared, arrivals(outcomes, order, average));
            &&& r is Ok <==> source_error(input) is None && (replies.len() == 0 || url is Some
                && forall|i: int|
                0 <= i < replies.len() ==> is_served(service, #[trigger] replies[i], give))
            &&& r matches Ok(values) ==> values == joined(averages(outcomes, order, average))
            &&& forall|i: int, t: int|
                0 <= i < replies.len() && #[trigger] serves(service, replies[i], give, t)
                    ==> outcomes[i] == Ok::<Stack, EmbedError>(
                    give(replies[i][t]->Read_0)->Ok_0,
                )
        }),
{
    let outcomes = outcomes_of(service, replies, give);
    assert forall|i: int, t: int|
        0 <= i < replies.len() && #[trigger] serves(
            service,
            replies[i],
            give,
            t,
        ) implies outcomes[i] == Ok::<Stack, EmbedError>(give(replies[i][t]->Read_0)->Ok_0) by {
        lemma_outcome_of_replies(service, replies[i], give);
    }
    assert forall|i: int| 0 <= i < replies.len() implies ((#[trigger] outcomes[i]) is Ok <==> is_served(
        service,
        replies[i],
        give,
    )) by {
        lemma_outcome_of_replies(service, replies[i], give);
    }
    lemma_every_image_counts_once(outcomes, order, average);
    assert((forall|i: int| 0 <= i < outcomes.len() ==> (#[trigger] outcomes[i]) is Ok) <==> (forall|
        i: int,
    |
        0 <= i < replies.len() ==> is_served(service, #[trigger] replies[i], give))) by {
        if forall|i: int| 0 <= i < outcomes.len() ==> (#[trigger] outcomes[i]) is Ok {
            assert forall|i: int| 0 <= i < replies.len() implies is_served(
                service,
                #[trigger] replies[i],
                give,
            ) by {
                assert(outcomes[i] is Ok);
            }
        }
    }
    if replies.len() == 0 {
        assert(averages(outcomes, order, average).len() == 0);
    }
}

/// A run against a llama.cpp server. It does well exactly if every cell holds bytes and,
/// where there are any, the address can be put together and each image gets, within four
/// tries, an accepted answer that can be read, whose first result can be stacked. It then
/// comes to the averages of those results, each image once, in the order in which they
/// arrive. Otherwise there is no result at all.
pub proof fn lemma_llama_run(
    input: EmbedInput,
    url: Option<Seq<char>>,
    prepared: Result<Option<Requests>, RequestError>,
    replies: Seq<Seq<Reply<LlamaAnswer>>>,
    order: Seq<int>,
    average: spec_fn(Stack) -> Vec<Real32>,
)
    requires
        is_request_list(input, url, |image: Seq<char>| llama_request(image), prepared),
        replies.len() == input.cells@.len(),
        forall|i: int|
            0 <= i < replies.len() ==> (#[trigger] replies[i]).len() > max_repeats(
                Service::LlamaServer,
            ),
        is_order(order, replies.len() as int),
    ensures
        ({
            let outcomes = outcomes_of(Service::LlamaServer, replies, llama_gives());
            let r = run_result(prepared, arrivals(outcomes, order, average));
            &&& r is Ok <==> source_error(input) is None && (replies.len() == 0 || url is Some
                && forall|i: int|
                0 <= i < replies.len() ==> is_served(
                    Service::LlamaServer,
                    #[trigger] replies[i],
                    llama_gives(),
                ))
            &&& r matches Ok(values) ==> values == joined(averages(outcomes, order, average))
            &&& forall|i: int, t: int|
                0 <= i < replies.len() && #[trigger] serves(
                    Service::LlamaServer,
                    replies[i],
                    llama_gives(),
                    t,
                ) ==> outcomes[i] == Ok::<Stack, EmbedError>(
                    first_stacked(replies[i][t]->Read_0@)->Ok_0,
                )
        }),
{
    lemma_run(
        Service::LlamaServer,
        input,
        url,
        |image: Seq<char>| llama_request(image),
        prepared,
        replies,
        llama_gives(),
        order,
        average,
    );
}

/// A run against Ollama. It does well exactly if every cell holds bytes and, where there
/// are any, the address can be put together and the one reply for each image is accepted,
/// can be read, and holds vectors that can be stacked. It then comes to the averages of
/// those vectors, each image once, in the order in which they arrive. Otherwise there is no
/// result at all.
pub proof fn lemma_ollama_run(
    input: EmbedInput,
    model: Seq<char>,
    url: Option<Seq<char>>,
    prepared: Result<Option<Requests>, RequestError>,
    replies: Seq<Reply<OllamaAnswer>>,
    order: Seq<int>,
    average: spec_fn(Stack) -> Vec<Real32>,
)
    requires
        is_request_list(input, url, |image: Seq<char>| ollama_request(model, image), prepared),
        replies.len() == input.cells@.len(),
        is_order(order, replies.len() as int),
    ensures
        ({
            let outcomes = outcomes_of(Service::Ollama, each_alone(replies), ollama_gives());
            let r = run_result(prepared, arrivals(outcomes, order, average));
            &&& r is Ok <==> source_error(input) is None && (replies.len() == 0 || url is Some
                && forall|i: int|
                0 <= i < replies.len() ==> (#[trigger] replies[i]) is Read && stacked(
                    replies[i]->Read_0@,
                ) is Ok)
            &&& r matches Ok(values) ==> values == joined(averages(outcomes, order, average))
            &&& forall|i: int|
                0 <= i < replies.len() && (#[trigger] replies[i]) is Read && stacked(
                    replies[i]->Read_0@,
                ) is Ok ==> outcomes[i] == Ok::<Stack, EmbedError>(
                    stacked(replies[i]->Read_0@)->Ok_0,
                )
        }),
{
    let alone = each_alone(replies);
    lemma_run(
        Service::Ollama,
        input,
        url,
        |image: Seq<char>| ollama_request(model, image),
        prepared,
        alone,
        ollama_gives(),
        order,
        average,
    );
    assert forall|i: int| 0 <= i < replies.len() implies (is_served(
        Service::Ollama,
        alone[i],
        ollama_gives(),
    ) <==> (#[trigger] replies[i]) is Read && stacked(replies[i]->Read_0@) is Ok) by {
        if replies[i] is Read && stacked(replies[i]->Read_0@) is Ok {
            assert(serves(Service::Ollama, alone[i], ollama_gives(), 0));
        }
    }
    if forall|i: int| 0 <= i < alone.len() ==> is_served(
        Service::Ollama,
        #[trigger] alone[i],
        ollama_gives(),
    ) {
        assert forall|i: int| 0 <= i < replies.len() implies (#[trigger] replies[i]) is Read
            && stacked(replies[i]->Read_0@) is Ok by {
            assert(is_served(Service::Ollama, alone[i], ollama_gives()));
        }
    }
}

/// Each reply as the only one for its image.
pub open spec fn each_alone<T>(replies: Seq<Reply<T>>) -> Seq<Seq<Reply<T>>> {
    Seq::new(replies.len(), |i: int| seq![replies[i]])
}

/// The vectors of an answer are averaged all together, each as it came: from a llama.cpp
/// server those of the first result, from Ollama all of them.
pub proof fn lemma_all_vectors_of_an_answer_are_averaged(
    llama: LlamaAnswer,
    ollama: OllamaAnswer,
    from_llama: Result<Matrix, EmbedError>,
    from_ollama: Result<Matrix, EmbedError>,
)
    requires
        call_ensures(llama_outcome, (Ok::<LlamaAnswer, AskError>(llama),), from_llama),
        call_ensures(ollama_outcome, (Ok::<OllamaAnswer, AskError>(ollama),), from_ollama),
        llama@.len() > 0,
        forall|k: int|
            0 <= k < llama@[0]@.len() ==> (#[trigger] llama@[0]@[k])@.len() == llama@[0]@[0]@.len(),
        forall|k: int| 0 <= k < ollama@.len() ==> (#[trigger] ollama@[k])@.len() == ollama@[0]@.len(),
        llama@[0]@.len() > 0,
        ollama@.len() > 0,
        llama@[0]@[0]@.len() > 0,
        ollama@[0]@.len() > 0,
        llama@[0]@.len() * llama@[0]@[0]@.len() <= isize::MAX,
        ollama@.len() * ollama@[0]@.len() <= isize::MAX,
    ensures
        from_llama is Ok,
        from_llama->Ok_0.n_rows == llama@[0]@.len(),
        forall|i: int|
            0 <= i < llama@[0]@.len() ==> #[trigger] from_llama->Ok_0.row(i) == llama@[0]@[i]@,
        from_ollama is Ok,
        from_ollama->Ok_0.n_rows == ollama@.len(),
        forall|i: int|
            0 <= i < ollama@.len() ==> #[trigger] from_ollama->Ok_0.row(i) == ollama@[i]@,
{
    assert(fills_rows(llama@[0]@));
    assert(fills_rows(ollama@));
}

/// The result of a run holds the numbers of every image and no others: image after image
/// where all have the same length.
pub proof fn lemma_run_holds_each_result(
    prepared: Result<Option<Requests>, RequestError>,
    results: Vec<Result<Vec<Real32>, EmbedError>>,
    vectors: Seq<Vec<Real32>>,
    dim: nat,
    r: Result<Vec<Real32>, RunError>,
    i: int,
)
    requires
        call_ensures(conclude, (&prepared, results), r),
        prepared is Ok,
        prepared->Ok_0 is Some,
        vectors.len() == results@.len(),
        forall|k: int|
            0 <= k < vectors.len() ==> #[trigger] results@[k] == Ok::<Vec<Real32>, EmbedError>(
                vectors[k],
            ),
        forall|k: int| 0 <= k < vectors.len() ==> (#[trigger] vectors[k])@.len() == dim,
        0 <= i < vectors.len(),
    ensures
        r is Ok,
        r->Ok_0@.len() == vectors.len() * dim,
        r->Ok_0@.subrange(i * dim, i * dim + dim) == vectors[i]@,
{
    lemma_joined_vectors_are_rows(vectors, dim, i);
    assert(r->Ok_0@ == joined(vectors));
}

} // verus!
