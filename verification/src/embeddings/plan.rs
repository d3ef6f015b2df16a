//! Which service computes the embeddings, and what it is asked.

use vstd::prelude::*;

use crate::embeddings::base64_text::base64_of;
use crate::embeddings::input::{
    encode_images, source_error, EmbedInput, SourceError,
};
use crate::embeddings::payload::{
    join_url, joined_url, json_text, llama_request, llama_request_body, ollama_request, ollama_request_body,
};
use crate::settings::EmbedMode;

verus! {

/// A llama.cpp server.
pub struct LlamaCppInference {
    pub base_url: String,
    pub dim: usize,
}

/// An Ollama server.
pub struct OllamaInference {
    pub base_url: String,
    pub model: String,
    pub dim: usize,
}

/// What the service is chosen by.
pub struct EmbedderSettings {
    pub embed_mode: EmbedMode,
    pub model: String,
    pub base_url: Option<String>,
    pub dims: Option<usize>,
}

/// The service to use.
pub enum EmbedderPlan {
    /// Load this model into the process.
    OpenClip { model: String },
    LlamaCpp(LlamaCppInference),
    Ollama(OllamaInference),
}

/// What is missing for a service.
#[derive(Clone, Copy, PartialEq, Eq, Structural, Debug)]
pub enum SetupError {
    LlamaCppBaseUrl,
    OllamaBaseUrl,
    Dims,
}

impl SetupError {
    pub fn message(&self) -> (s: &'static str)
        ensures
            s@ == (match *self {
                SetupError::LlamaCppBaseUrl => "LlamaCpp requires --base-url"@,
                SetupError::OllamaBaseUrl => "Ollama requires --base-url"@,
                SetupError::Dims => "Dim args not defined"@,
            }),
    {
        match self {
            SetupError::LlamaCppBaseUrl => "LlamaCpp requires --base-url",
            SetupError::OllamaBaseUrl => "Ollama requires --base-url",
            SetupError::Dims => "Dim args not defined",
        }
    }
}

/// What is missing, if anything is.
pub open spec fn setup_error(settings: EmbedderSettings) -> Option<SetupError> {
    match settings.embed_mode {
        EmbedMode::OpenClip => None,
        EmbedMode::LlamaCpp => if settings.base_url is None {
            Some(SetupError::LlamaCppBaseUrl)
        } else if settings.dims is None {
            Some(SetupError::Dims)
        } else {
            None
        },
        EmbedMode::Ollama => if settings.base_url is None {
            Some(SetupError::OllamaBaseUrl)
        } else if settings.dims is None {
            Some(SetupError::Dims)
        } else {
            None
        },
    }
}

/// Chooses the service.
pub fn get_embedder(settings: &EmbedderSettings) -> (r: Result<EmbedderPlan, SetupError>)
    ensures
        match setup_error(*settings) {
            Some(e) => r == Err::<EmbedderPlan, SetupError>(e),
            None => r is Ok && match (settings.embed_mode, r->Ok_0) {
                (EmbedMode::OpenClip, EmbedderPlan::OpenClip { model }) => model
                    == settings.model,
                (EmbedMode::LlamaCpp, EmbedderPlan::LlamaCpp(server)) => {
                    &&& Some(server.base_url) == settings.base_url
                    &&& Some(server.dim) == settings.dims
                },
                (EmbedMode::Ollama, EmbedderPlan::Ollama(server)) => {
                    &&& Some(server.base_url) == settings.base_url
                    &&& Some(server.dim) == settings.dims
                    &&& server.model == settings.model
                },
                _ => false,
            },
        },
        settings.embed_mode == EmbedMode::OpenClip ==> r is Ok && r->Ok_0 is OpenClip,
        settings.embed_mode != EmbedMode::OpenClip && settings.base_url is Some && settings.dims
            is Some ==> r is Ok,
        settings.embed_mode == EmbedMode::LlamaCpp && settings.base_url is None ==> r == Err::<
            EmbedderPlan,
            SetupError,
        >(SetupError::LlamaCppBaseUrl),
        settings.embed_mode == EmbedMode::Ollama && settings.base_url is None ==> r == Err::<
            EmbedderPlan,
            SetupError,
        >(SetupError::OllamaBaseUrl),
        settings.embed_mode != EmbedMode::OpenClip && settings.base_url is Some && settings.dims
            is None ==> r == Err::<EmbedderPlan, SetupError>(SetupError::Dims),
{
    match settings.embed_mode {
        EmbedMode::OpenClip => Ok(EmbedderPlan::OpenClip { model: settings.model.clone() }),
        EmbedMode::LlamaCpp => match (&settings.base_url, settings.dims) {
            (None, _) => Err(SetupError::LlamaCppBaseUrl),
            (_, None) => Err(SetupError::Dims),
            (Some(url), Some(dim)) => Ok(
                EmbedderPlan::LlamaCpp(LlamaCppInference { base_url: url.clone(), dim }),
            ),
        },
        EmbedMode::Ollama => match (&settings.base_url, settings.dims) {
            (None, _) => Err(SetupError::OllamaBaseUrl),
            (_, None) => Err(SetupError::Dims),
            (Some(url), Some(dim)) => Ok(
                EmbedderPlan::Ollama(
                    OllamaInference { base_url: url.clone(), model: settings.model.clone(), dim },
                ),
            ),
        },
    }
}

/// The requests for a list of images: where they go, and one body for each image.
pub struct Requests {
    pub url: String,
    pub bodies: Vec<String>,
}

/// Why there are no requests.
#[derive(Clone, Copy, PartialEq, Eq, Structural, Debug)]
pub enum RequestError {
    Source(SourceError),
    /// The address of the service could not be put together.
    Url,
}

impl RequestError {
    pub open spec fn text(self, endpoint: Seq<char>) -> Seq<char> {
        match self {
            RequestError::Source(e) => e.text(),
            RequestError::Url => "Failed to join base_url with '"@ + endpoint + "'"@,
        }
    }

    /// What to say, where `endpoint` is what the address was put together with.
    pub fn message(&self, endpoint: &str) -> (s: String)
        ensures
            s@ == self.text(endpoint@),
            *self matches RequestError::Source(e) ==> s@ == e.text(),
            *self == RequestError::Url ==> s@ == "Failed to join base_url with '"@ + endpoint@ + "'"@,
    {
        let mut s = String::new();
        match self {
            RequestError::Source(e) => {
                s.push_str(e.message());
                assert(s@ =~= e.text());
            },
            RequestError::Url => {
                s.push_str("Failed to join base_url with '");
                s.push_str(endpoint);
                s.push_str("'");
                assert(s@ =~= "Failed to join base_url with '"@ + endpoint@ + "'"@);
            },
        }
        s
    }
}

/// What the requests for an input come to, where `url` is the address and `body` the
/// request for an image given as text: an error, nothing to ask for, or one request for
/// each image.
pub open spec fn is_request_list(
    input: EmbedInput,
    url: Option<Seq<char>>,
    body: spec_fn(Seq<char>) -> Seq<char>,
    r: Result<Option<Requests>, RequestError>,
) -> bool {
    match source_error(input) {
        Some(e) => r == Err::<Option<Requests>, RequestError>(RequestError::Source(e)),
        None => if input.cells@.len() == 0 {
            r == Ok::<Option<Requests>, RequestError>(None)
        } else if url is None {
            r == Err::<Option<Requests>, RequestError>(RequestError::Url)
        } else {
            &&& r is Ok
            &&& r->Ok_0 is Some
            &&& (r->Ok_0->0).url@ == url->0
            &&& (r->Ok_0->0).bodies@.len() == input.cells@.len()
            &&& forall|i: int|
                0 <= i < input.cells@.len() ==> (#[trigger] (r->Ok_0->0).bodies@[i])@ == body(
                    base64_of(input.cells@[i]->0@),
                )
        },
    }
}

pub open spec fn text_option(s: Option<String>) -> Option<Seq<char>> {
    match s {
        Some(t) => Some(t@),
        None => None,
    }
}

impl LlamaCppInference {
    /// The requests for an input, where `url` is the address to send them to.
    pub fn requests(&self, input: &EmbedInput, url: Option<String>) -> (r: Result<
        Option<Requests>,
        RequestError,
    >)
        requires
            input.fits(),
        ensures
            is_request_list(
                *input,
                text_option(url),
                |image: Seq<char>| llama_request(image),
                r,
            ),
    {
        let images = match encode_images(input) {
            Ok(images) => images,
            Err(e) => {
                return Err(RequestError::Source(e));
            },
        };
        if images.len() == 0 {
            return Ok(None);
        }
        match url {
            None => Err(RequestError::Url),
            Some(url) => {
                let mut bodies: Vec<String> = Vec::new();
                let mut i: usize = 0;
                while i < images.len()
                    invariant
                        i <= images@.len(),
                        images@.len() == input.cells@.len(),
                        forall|j: int|
                            0 <= j < images@.len() ==> (#[trigger] images@[j])@ == base64_of(
                                input.cells@[j]->0@,
                            ),
                        bodies@.len() == i,
                        forall|j: int|
                            0 <= j < i ==> (#[trigger] bodies@[j])@ == llama_request(
                                base64_of(input.cells@[j]->0@),
                            ),
                    decreases images@.len() - i,
                {
                    bodies.push(llama_request_body(images[i].as_str()));
                    i = i + 1;
                }
                Ok(Some(Requests { url, bodies }))
            },
        }
    }

    /// The requests for an input, to the server's `/embedding`.
    pub fn compute_inner(&self, input: &EmbedInput) -> (r: Result<Option<Requests>, RequestError>)
        requires
            input.fits(),
        ensures
            is_request_list(
                *input,
                joined_url(self.base_url@, "/embedding"@),
                |image: Seq<char>| llama_request(image),
                r,
            ),
    {
        let url = join_url(self.base_url.as_str(), "/embedding");
        self.requests(input, url)
    }
}

impl OllamaInference {
    /// The length of the embeddings.
    pub fn dim(&self) -> (d: usize)
        ensures
            d == self.dim,
    {
        self.dim
    }

    /// The requests for an input, where `url` is the address to send them to.
    pub fn requests(&self, input: &EmbedInput, url: Option<String>) -> (r: Result<
        Option<Requests>,
        RequestError,
    >)
        requires
            input.fits(),
        ensures
            is_request_list(
                *input,
                text_option(url),
                |image: Seq<char>| ollama_request(self.model@, image),
                r,
            ),
    {
        let images = match encode_images(input) {
            Ok(images) => images,
            Err(e) => {
                return Err(RequestError::Source(e));
            },
        };
        if images.len() == 0 {
            return Ok(None);
        }
        match url {
            None => Err(RequestError::Url),
            Some(url) => {
                let mut bodies: Vec<String> = Vec::new();
                let mut i: usize = 0;
                while i < images.len()
                    invariant
                        i <= images@.len(),
                        images@.len() == input.cells@.len(),
                        forall|j: int|
                            0 <= j < images@.len() ==> (#[trigger] images@[j])@ == base64_of(
                                input.cells@[j]->0@,
                            ),
                        bodies@.len() == i,
                        forall|j: int|
                            0 <= j < i ==> (#[trigger] bodies@[j])@ == ollama_request(
                                self.model@,
                                base64_of(input.cells@[j]->0@),
                            ),
                    decreases images@.len() - i,
                {
                    bodies.push(ollama_request_body(self.model.as_str(), images[i].as_str()));
                    i = i + 1;
                }
                Ok(Some(Requests { url, bodies }))
            },
        }
    }

    /// The requests for an input, to the server's `/api/embed`.
    pub fn embed_array(&self, input: &EmbedInput) -> (r: Result<Option<Requests>, RequestError>)
        requires
            input.fits(),
        ensures
            is_request_list(
                *input,
                joined_url(self.base_url@, "/api/embed"@),
                |image: Seq<char>| ollama_request(self.model@, image),
                r,
            ),
    {
        let url = join_url(self.base_url.as_str(), "/api/embed");
        self.requests(input, url)
    }
}

/// The name of the device that a loaded model runs on.
pub fn device_label(directml: bool, webgpu: bool) -> (label: &'static str)
    ensures
        label@ == (if directml {
            "GPU (DirectML)"@
        } else if webgpu {
            "GPU (WebGPU)"@
        } else {
            "CPU"@
        }),
{
    if directml {
        "GPU (DirectML)"
    } else if webgpu {
        "GPU (WebGPU)"
    } else {
        "CPU"
    }
}

/// Where every cell of an input holds bytes and the address is known, there is one request
/// for each image, in their order, each with the text of its own image, to that address.
pub proof fn lemma_one_request_for_each_image(
    input: EmbedInput,
    url: Option<Seq<char>>,
    body: spec_fn(Seq<char>) -> Seq<char>,
    r: Result<Option<Requests>, RequestError>,
)
    requires
        is_request_list(input, url, body, r),
        input.binary,
        forall|i: int| 0 <= i < input.cells@.len() ==> (#[trigger] input.cells@[i]) is Some,
    ensures
        input.cells@.len() == 0 ==> r == Ok::<Option<Requests>, RequestError>(None),
        input.cells@.len() > 0 && url is None ==> r == Err::<Option<Requests>, RequestError>(
            RequestError::Url,
        ),
        input.cells@.len() > 0 && url is Some ==> {
            &&& r is Ok && r->Ok_0 is Some
            &&& (r->Ok_0->0).url@ == url->0
            &&& (r->Ok_0->0).bodies@.len() == input.cells@.len()
            &&& forall|i: int|
                0 <= i < input.cells@.len() ==> (#[trigger] (r->Ok_0->0).bodies@[i])@ == body(
                    base64_of(input.cells@[i]->0@),
                )
        },
{
    assert(!input.nullable());
}

/// An input with an empty cell, or whose cells hold no bytes, leads to no request.
pub proof fn lemma_unfit_inputs_lead_to_no_request(
    input: EmbedInput,
    url: Option<Seq<char>>,
    body: spec_fn(Seq<char>) -> Seq<char>,
    r: Result<Option<Requests>, RequestError>,
)
    requires
        is_request_list(input, url, body, r),
        !input.binary || exists|i: int|
            0 <= i < input.cells@.len() && (#[trigger] input.cells@[i]) is None,
    ensures
        r is Err,
        r->Err_0 is Source,
{
}

/// The bodies of the requests to a llama.cpp server hold the texts of the images, in their
/// order.
pub proof fn lemma_llama_requests_hold_the_images(
    server: LlamaCppInference,
    input: EmbedInput,
    url: Option<String>,
    r: Result<Option<Requests>, RequestError>,
    i: int,
)
    requires
        call_ensures(LlamaCppInference::requests, (&server, &input, url), r),
        input.fits(),
        r is Ok,
        r->Ok_0 is Some,
        0 <= i < input.cells@.len(),
    ensures
        url is Some,
        (r->Ok_0->0).url@ == url->0@,
        (r->Ok_0->0).bodies@.len() == input.cells@.len(),
        input.cells@[i] is Some,
        (r->Ok_0->0).bodies@[i]@
            == "{\"content\":\"Image: [img-1]\",\"image_data\":[{\"data\":"@ + json_text(
            base64_of(input.cells@[i]->0@),
        ) + ",\"id\":1}]}"@,
{
}

/// The bodies of the requests to Ollama hold the texts of the images, in their order, and
/// the model.
pub proof fn lemma_ollama_requests_hold_the_images(
    server: OllamaInference,
    input: EmbedInput,
    url: Option<String>,
    r: Result<Option<Requests>, RequestError>,
    i: int,
)
    requires
        call_ensures(OllamaInference::requests, (&server, &input, url), r),
        input.fits(),
        r is Ok,
        r->Ok_0 is Some,
        0 <= i < input.cells@.len(),
    ensures
        url is Some,
        (r->Ok_0->0).url@ == url->0@,
        (r->Ok_0->0).bodies@.len() == input.cells@.len(),
        input.cells@[i] is Some,
        (r->Ok_0->0).bodies@[i]@ == "{\"images\":["@ + json_text(base64_of(input.cells@[i]->0@))
            + "],\"input\":\"describe this image\",\"model\":"@ + json_text(server.model@) + "}"@,
{
}

/// The requests go where the server's address and its endpoint lead to.
pub proof fn lemma_requests_go_to_the_endpoint(
    llama: LlamaCppInference,
    ollama: OllamaInference,
    input: EmbedInput,
    to_llama: Result<Option<Requests>, RequestError>,
    to_ollama: Result<Option<Requests>, RequestError>,
)
    requires
        call_ensures(LlamaCppInference::compute_inner, (&llama, &input), to_llama),
        call_ensures(OllamaInference::embed_array, (&ollama, &input), to_ollama),
        input.fits(),
    ensures
        to_llama is Ok && to_llama->Ok_0 is Some ==> joined_url(llama.base_url@, "/embedding"@) == Some(
            (to_llama->Ok_0->0).url@,
        ),
        to_ollama is Ok && to_ollama->Ok_0 is Some ==> joined_url(ollama.base_url@, "/api/embed"@)
            == Some((to_ollama->Ok_0->0).url@),
{
}

/// An input whose cells all hold bytes is asked for wherever the address is known, with as
/// many requests as images; without an address it is refused for that, and without images
/// there is nothing to ask for.
pub proof fn lemma_fit_inputs_are_asked_for(
    llama: LlamaCppInference,
    ollama: OllamaInference,
    input: EmbedInput,
    url: Option<String>,
    to_llama: Result<Option<Requests>, RequestError>,
    to_ollama: Result<Option<Requests>, RequestError>,
)
    requires
        call_ensures(LlamaCppInference::requests, (&llama, &input, url), to_llama),
        call_ensures(OllamaInference::requests, (&ollama, &input, url), to_ollama),
        input.fits(),
        input.binary,
        forall|i: int| 0 <= i < input.cells@.len() ==> (#[trigger] input.cells@[i]) is Some,
    ensures
        input.cells@.len() > 0 && url is Some ==> to_llama is Ok && to_llama->Ok_0 is Some
            && to_ollama is Ok && to_ollama->Ok_0 is Some,
        input.cells@.len() > 0 && url is None ==> to_llama == Err::<Option<Requests>, RequestError>(
            RequestError::Url,
        ) && to_ollama == Err::<Option<Requests>, RequestError>(RequestError::Url),
        input.cells@.len() == 0 ==> to_llama == Ok::<Option<Requests>, RequestError>(None)
            && to_ollama == Ok::<Option<Requests>, RequestError>(None),
{
    lemma_one_request_for_each_image(
        input,
        text_option(url),
        |image: Seq<char>| llama_request(image),
        to_llama,
    );
    lemma_one_request_for_each_image(
        input,
        text_option(url),
        |image: Seq<char>| ollama_request(ollama.model@, image),
        to_ollama,
    );
}

/// The same for the addresses that the servers are found at.
pub proof fn lemma_fit_inputs_are_asked_for_at_the_endpoint(
    llama: LlamaCppInference,
    ollama: OllamaInference,
    input: EmbedInput,
    to_llama: Result<Option<Requests>, RequestError>,
    to_ollama: Result<Option<Requests>, RequestError>,
    i: int,
)
    requires
        call_ensures(LlamaCppInference::compute_inner, (&llama, &input), to_llama),
        call_ensures(OllamaInference::embed_array, (&ollama, &input), to_ollama),
        input.fits(),
        input.binary,
        forall|i: int| 0 <= i < input.cells@.len() ==> (#[trigger] input.cells@[i]) is Some,
        0 <= i < input.cells@.len(),
        joined_url(llama.base_url@, "/embedding"@) is Some,
        joined_url(ollama.base_url@, "/api/embed"@) is Some,
    ensures
        to_llama is Ok && to_llama->Ok_0 is Some,
        (to_llama->Ok_0->0).bodies@.len() == input.cells@.len(),
        (to_llama->Ok_0->0).bodies@[i]@
            == "{\"content\":\"Image: [img-1]\",\"image_data\":[{\"data\":"@ + json_text(
            base64_of(input.cells@[i]->0@),
        ) + ",\"id\":1}]}"@,
        to_ollama is Ok && to_ollama->Ok_0 is Some,
        (to_ollama->Ok_0->0).bodies@.len() == input.cells@.len(),
        (to_ollama->Ok_0->0).bodies@[i]@ == "{\"images\":["@ + json_text(
            base64_of(input.cells@[i]->0@),
        ) + "],\"input\":\"describe this image\",\"model\":"@ + json_text(ollama.model@) + "}"@,
{
    lemma_one_request_for_each_image(
        input,
        joined_url(llama.base_url@, "/embedding"@),
        |image: Seq<char>| llama_request(image),
        to_llama,
    );
    lemma_one_request_for_each_image(
        input,
        joined_url(ollama.base_url@, "/api/embed"@),
        |image: Seq<char>| ollama_request(ollama.model@, image),
        to_ollama,
    );
}

} // verus!
