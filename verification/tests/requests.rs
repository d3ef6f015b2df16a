use image_cluster::embeddings::centroid::{
    first_result, is_scaled, join_vectors, stack_first_result, stack_vectors, CentroidError,
};
use image_cluster::embeddings::input::{
    check_source, encode_images, EmbedInput, SourceError, ToEmbedInput,
};
use image_cluster::embeddings::pictures::{all_decoded, decode_images, DecodeError};
use image_cluster::embeddings::payload::{llama_request_body, ollama_request_body};
use image_cluster::embeddings::plan::{
    device_label, get_embedder, EmbedderPlan, EmbedderSettings, LlamaCppInference, OllamaInference,
    RequestError, Requests, SetupError,
};
use image_cluster::embeddings::retry::{
    failure_message, AskError, Reply, Retry, RetryAction, Service, Stage, Step,
};
use image_cluster::embeddings::run::{
    conclude, llama_outcome, ollama_outcome, EmbedError, RunError,
};
use image_cluster::ieee::Real32;
use image_cluster::matrix::ShapeFault;
use image_cluster::settings::EmbedMode;

fn all32(xs: &[f32]) -> Vec<Real32> {
    xs.iter().map(|&x| Real32::from_bits(x.to_bits())).collect()
}

fn images(bytes: &[&[u8]]) -> EmbedInput {
    bytes.to_vec().to_embed_input()
}

#[test]
fn images_are_sent_as_padded_text() {
    let Ok(texts) = encode_images(&images(&[b"", b"f", b"fo", b"foo", b"foob", &[0xfb, 0xff, 0xfe]]))
    else {
        panic!("a list of bytes")
    };
    assert!(images(&[b"", b"foo"]).is_encodable());
    assert_eq!(texts, vec!["", "Zg==", "Zm8=", "Zm9v", "Zm9vYg==", "+//+"]);
}

#[test]
fn inputs_become_cells() {
    let owned = vec![vec![1u8, 2], vec![]].to_embed_input();
    assert!(owned.binary);
    assert_eq!(owned.cells, vec![Some(vec![1, 2]), Some(vec![])]);
    let again = owned.to_embed_input();
    assert_eq!(again.cells, vec![Some(vec![1, 2]), Some(vec![])]);
    let slices: Vec<&[u8]> = vec![&[3u8]];
    let borrowed = slices.to_embed_input();
    assert!(borrowed.binary && !borrowed.is_nullable());
    assert_eq!(borrowed.cells, vec![Some(vec![3])]);
}

#[test]
fn inputs_are_refused_for_one_reason() {
    let nullable = EmbedInput { binary: false, cells: vec![Some(vec![1]), None] };
    assert_eq!(check_source(&nullable), Err(SourceError::Nullable));
    let other = EmbedInput { binary: false, cells: vec![Some(vec![1])] };
    assert_eq!(check_source(&other), Err(SourceError::NotBinary));
    assert_eq!(encode_images(&other), Err(SourceError::NotBinary));
    assert_eq!(check_source(&images(&[b"x"])), Ok(()));
    assert_eq!(SourceError::Nullable.message(), "Expected non-nullable data type");
    assert_eq!(SourceError::NotBinary.message(), "Expected Binary data type");
}

fn parsed(body: &str) -> serde_json::Value {
    match serde_json::from_str(body) {
        Ok(v) => v,
        Err(e) => panic!("{body}: {e}"),
    }
}

#[test]
fn llama_requests_hold_the_image() {
    assert_eq!(
        llama_request_body("Zm9v"),
        "{\"content\":\"Image: [img-1]\",\"image_data\":[{\"data\":\"Zm9v\",\"id\":1}]}"
    );
    let v = parsed(&llama_request_body("Zm9v"));
    assert_eq!(v["content"], "Image: [img-1]");
    assert_eq!(v["image_data"][0]["id"], 1);
    assert_eq!(v["image_data"][0]["data"], "Zm9v");
}

#[test]
fn ollama_requests_hold_model_and_image() {
    assert_eq!(
        ollama_request_body("llava", "Zm8="),
        "{\"images\":[\"Zm8=\"],\"input\":\"describe this image\",\"model\":\"llava\"}"
    );
}

#[test]
fn texts_read_back_from_requests() {
    let mut odd = String::from("q\"b\\s/é\u{1F600}\u{7f}\u{2028}");
    for c in 0u8..32 {
        odd.push(c as char);
    }
    let v = parsed(&ollama_request_body(&odd, "="));
    assert_eq!(v["model"], odd.as_str());
    assert_eq!(v["images"][0], "=");
    assert_eq!(v["input"], "describe this image");
    assert_eq!(
        ollama_request_body("\u{1}\u{1f}\n\t\u{8}\u{c}\r\"\\", "i"),
        "{\"images\":[\"i\"],\"input\":\"describe this image\",\"model\":\"\\u0001\\u001f\\n\\t\\b\\f\\r\\\"\\\\\"}"
    );
}

fn llama(base_url: &str) -> LlamaCppInference {
    LlamaCppInference { base_url: base_url.to_string(), dim: 8 }
}

fn ollama(base_url: &str) -> OllamaInference {
    OllamaInference { base_url: base_url.to_string(), model: "llava".to_string(), dim: 8 }
}

#[test]
fn requests_go_to_the_server() {
    let input = images(&[b"foo", b"f"]);
    let Ok(Some(r)) = llama("http://host:8080/some/page").compute_inner(&input) else {
        panic!("two images")
    };
    assert_eq!(r.url, "http://host:8080/embedding");
    assert_eq!(r.bodies, vec![llama_request_body("Zm9v"), llama_request_body("Zg==")]);
    let Ok(Some(r)) = ollama("http://host").embed_array(&input) else { panic!("two images") };
    assert_eq!(r.url, "http://host/api/embed");
    assert_eq!(
        r.bodies,
        vec![ollama_request_body("llava", "Zm9v"), ollama_request_body("llava", "Zg==")]
    );
    assert_eq!(ollama("http://host").dim(), 8);
}

#[test]
fn requests_need_an_address_and_images() {
    let input = images(&[b"foo"]);
    assert!(matches!(llama("no address").compute_inner(&input), Err(RequestError::Url)));
    assert!(matches!(ollama("mailto:someone").embed_array(&input), Err(RequestError::Url)));
    assert!(matches!(llama("no address").compute_inner(&images(&[])), Ok(None)));
    assert!(matches!(ollama("no address").embed_array(&images(&[])), Ok(None)));
    let empty_cell = EmbedInput { binary: true, cells: vec![None] };
    assert!(matches!(
        llama("no address").compute_inner(&empty_cell),
        Err(RequestError::Source(SourceError::Nullable))
    ));
    let text = EmbedInput { binary: false, cells: vec![] };
    assert!(matches!(
        ollama("http://host").embed_array(&text),
        Err(RequestError::Source(SourceError::NotBinary))
    ));
    let given = llama("unused").requests(&input, Some("http://x/".to_string()));
    assert!(matches!(given, Ok(Some(r)) if r.url == "http://x/" && r.bodies.len() == 1));
    assert!(matches!(ollama("unused").requests(&input, None), Err(RequestError::Url)));
}

#[test]
fn request_errors_say_what_is_wrong() {
    assert_eq!(
        RequestError::Url.message("/embedding"),
        "Failed to join base_url with '/embedding'"
    );
    assert_eq!(
        RequestError::Source(SourceError::NotBinary).message("/api/embed"),
        "Expected Binary data type"
    );
}

fn settings(mode: EmbedMode, base_url: Option<&str>, dims: Option<usize>) -> EmbedderSettings {
    EmbedderSettings {
        embed_mode: mode,
        model: "m".to_string(),
        base_url: base_url.map(|s| s.to_string()),
        dims,
    }
}

#[test]
fn embedders_are_chosen_by_the_mode() {
    let plan = get_embedder(&settings(EmbedMode::OpenClip, None, None));
    assert!(matches!(plan, Ok(EmbedderPlan::OpenClip { model }) if model == "m"));
    let plan = get_embedder(&settings(EmbedMode::LlamaCpp, Some("http://h"), Some(3)));
    assert!(
        matches!(plan, Ok(EmbedderPlan::LlamaCpp(s)) if s.base_url == "http://h" && s.dim == 3)
    );
    let plan = get_embedder(&settings(EmbedMode::Ollama, Some("http://h"), Some(3)));
    assert!(matches!(
        plan,
        Ok(EmbedderPlan::Ollama(s)) if s.base_url == "http://h" && s.dim == 3 && s.model == "m"
    ));
}

#[test]
fn embedders_say_what_is_missing() {
    let missing = |mode, url, dims| get_embedder(&settings(mode, url, dims)).err();
    assert_eq!(missing(EmbedMode::LlamaCpp, None, None), Some(SetupError::LlamaCppBaseUrl));
    assert_eq!(missing(EmbedMode::Ollama, None, Some(3)), Some(SetupError::OllamaBaseUrl));
    assert_eq!(missing(EmbedMode::LlamaCpp, Some("u"), None), Some(SetupError::Dims));
    assert_eq!(missing(EmbedMode::Ollama, Some("u"), None), Some(SetupError::Dims));
    assert_eq!(SetupError::LlamaCppBaseUrl.message(), "LlamaCpp requires --base-url");
    assert_eq!(SetupError::OllamaBaseUrl.message(), "Ollama requires --base-url");
    assert_eq!(SetupError::Dims.message(), "Dim args not defined");
}

#[test]
fn devices_are_named_by_preference() {
    assert_eq!(device_label(true, true), "GPU (DirectML)");
    assert_eq!(device_label(true, false), "GPU (DirectML)");
    assert_eq!(device_label(false, true), "GPU (WebGPU)");
    assert_eq!(device_label(false, false), "CPU");
}

#[test]
fn service_is_given_up_after_four_failures() {
    let mut retry = Retry::new(Service::LlamaServer);
    let actions: Vec<RetryAction> = (0..4).map(|_| retry.on_reply(false)).collect();
    assert_eq!(
        actions,
        vec![
            RetryAction::Wait { seconds: 1 },
            RetryAction::Wait { seconds: 2 },
            RetryAction::Wait { seconds: 3 },
            RetryAction::Fail,
        ]
    );
    let mut retry = Retry::new(Service::LlamaServer);
    assert_eq!(retry.on_reply(false), RetryAction::Wait { seconds: 1 });
    assert_eq!(retry.on_reply(true), RetryAction::Accept);
    assert_eq!(retry.attempts, 1);
}

#[test]
fn failures_say_who_and_where() {
    let of = |service, stage| failure_message(service, stage, "e");
    assert_eq!(of(Service::LlamaServer, Stage::Request), "llama-server request failed: e");
    assert_eq!(of(Service::LlamaServer, Stage::Status), "llama-server returned error: e");
    assert_eq!(of(Service::LlamaServer, Stage::Parse), "failed to parse llama-server response: e");
    assert_eq!(of(Service::Ollama, Stage::Request), "ollama request failed: e");
    assert_eq!(of(Service::Ollama, Stage::Status), "ollama returned error: e");
    assert_eq!(of(Service::Ollama, Stage::Parse), "failed to parse ollama response: e");
}

#[test]
fn vectors_are_stacked_or_refused() {
    let Ok(m) = stack_vectors(&vec![all32(&[1.0, 2.0]), all32(&[3.0, 4.0])]) else {
        panic!("two by two")
    };
    assert_eq!((m.n_rows, m.n_cols), (2, 2));
    assert_eq!(m.data, all32(&[1.0, 2.0, 3.0, 4.0]));
    // Only the count of all numbers has to fit.
    let uneven = stack_vectors(&vec![all32(&[1.0, 2.0]), all32(&[3.0]), all32(&[4.0, 5.0, 6.0])]);
    assert!(matches!(uneven, Ok(m) if m.n_rows == 3 && m.n_cols == 2));
    let error = |v: Vec<Vec<Real32>>| stack_vectors(&v).err();
    assert_eq!(error(vec![]), Some(CentroidError::Empty));
    let short = Some(CentroidError::Shape(ShapeFault::OutOfBounds));
    assert_eq!(error(vec![all32(&[1.0, 2.0]), all32(&[3.0])]), short);
    let long = Some(CentroidError::Shape(ShapeFault::IncompatibleShape));
    assert_eq!(error(vec![all32(&[1.0]), all32(&[2.0, 3.0])]), long);
}

#[test]
fn shape_errors_read_as_those_of_ndarray() {
    for (r, c, n) in [(2usize, 2usize, 3usize), (1, 1, 2), (usize::MAX, 2, 0)] {
        let Err(e) = ndarray::Array2::from_shape_vec((r, c), vec![0.0f32; n]) else {
            panic!("no fit")
        };
        let fault = match format!("{:?}", e.kind()).as_str() {
            "Overflow" => ShapeFault::Overflow,
            "OutOfBounds" => ShapeFault::OutOfBounds,
            _ => ShapeFault::IncompatibleShape,
        };
        assert_eq!(
            CentroidError::Shape(fault).message(),
            format!("Failed to create ndarray: {e}")
        );
    }
    assert_eq!(CentroidError::Empty.message(), "Cannot compute centroid of empty vector list");
    assert_eq!(CentroidError::NoResult.message(), "Failed to get embedding result");
}

#[test]
fn joined_vectors_are_rows() {
    let joined = join_vectors(&vec![all32(&[1.0, 2.0]), all32(&[3.0, 4.0])]);
    assert_eq!(joined[2..4], all32(&[3.0, 4.0]));
    assert_eq!(joined.len(), 4);
    let results = vec![vec![all32(&[1.0])], vec![]];
    assert_eq!(first_result(&results), Ok(&results[0]));
    assert_eq!(first_result(&vec![]), Err(CentroidError::NoResult));
    assert!(matches!(stack_first_result(&results), Ok(m) if m.n_rows == 1 && m.n_cols == 1));
    assert!(matches!(stack_first_result(&vec![]), Err(CentroidError::NoResult)));
}

#[test]
fn tiny_averages_are_not_scaled() {
    let of = |x: f32| is_scaled(Real32::from_bits(x.to_bits()));
    assert!(of(1e-9) && of(1.0) && of(f32::INFINITY));
    assert!(!of(1e-10) && !of(0.0) && !of(-1.0) && !of(f32::NAN));
    assert!(of(f32::from_bits(1e-10f32.to_bits() + 1)));
}

#[test]
fn ollama_is_asked_once() {
    let mut retry = Retry::new(Service::Ollama);
    assert_eq!(retry.on_reply(false), RetryAction::Fail);
    let mut retry = Retry::new(Service::Ollama);
    let step = retry.settle(Reply::<OllamaVectors>::Refused("503".to_string()));
    let Step::Failed(e) = step else { panic!("no second request") };
    assert_eq!(e.stage, Stage::Status);
    let Err(e) = ollama_outcome(Err(e)) else { panic!("nothing to average") };
    assert_eq!(e.message(Service::Ollama), "ollama returned error: 503");
}

type OllamaVectors = Vec<Vec<Real32>>;

#[test]
fn llama_is_asked_until_it_accepts() {
    let mut retry = Retry::new(Service::LlamaServer);
    assert!(matches!(
        retry.settle(Reply::<u8>::NoAnswer("down".to_string())),
        Step::Wait { seconds: 1 }
    ));
    assert!(matches!(
        retry.settle(Reply::<u8>::Refused("503".to_string())),
        Step::Wait { seconds: 2 }
    ));
    assert!(matches!(retry.settle(Reply::Read(7u8)), Step::Read(7)));
    let mut retry = Retry::new(Service::LlamaServer);
    assert!(matches!(
        retry.settle(Reply::<u8>::Unreadable("?".to_string())),
        Step::Failed(e) if e.stage == Stage::Parse && e.detail == "?"
    ));
    for _ in 0..3 {
        retry.settle(Reply::<u8>::Refused("503".to_string()));
    }
    assert!(matches!(
        retry.settle(Reply::<u8>::NoAnswer("down".to_string())),
        Step::Failed(e) if e.stage == Stage::Request && e.detail == "down"
    ));
}

#[test]
fn answers_are_stacked_or_refused() {
    let answer = vec![vec![all32(&[3.0, 4.0])], vec![]];
    assert!(matches!(llama_outcome(Ok(answer)), Ok(m) if m.n_rows == 1 && m.n_cols == 2));
    assert!(matches!(
        llama_outcome(Ok(vec![])),
        Err(EmbedError::Centroid(CentroidError::NoResult))
    ));
    assert!(matches!(
        ollama_outcome(Ok(vec![])),
        Err(EmbedError::Centroid(CentroidError::Empty))
    ));
    let down = AskError { stage: Stage::Request, detail: "down".to_string() };
    let Err(e) = llama_outcome(Err(down)) else { panic!("no answer") };
    assert_eq!(e.message(Service::LlamaServer), "llama-server request failed: down");
}

fn prepared() -> Result<Option<Requests>, RequestError> {
    Ok(Some(Requests { url: "http://h/".to_string(), bodies: vec!["a".to_string(); 2] }))
}

#[test]
fn results_are_joined_as_they_arrive() {
    let results = vec![Ok(all32(&[3.0, 4.0])), Ok(all32(&[1.0, 2.0]))];
    let Ok(values) = conclude(&prepared(), results) else { panic!("both images did well") };
    assert_eq!(values, all32(&[3.0, 4.0, 1.0, 2.0]));
    assert!(matches!(conclude(&Ok(None), vec![]), Ok(v) if v.is_empty()));
}

#[test]
fn one_failure_leaves_no_result() {
    let failure = |c| Err(EmbedError::Centroid(c));
    let results = vec![
        Ok(all32(&[3.0])),
        failure(CentroidError::Empty),
        failure(CentroidError::NoResult),
        Ok(all32(&[1.0])),
    ];
    let Err(e) = conclude(&prepared(), results) else { panic!("an image failed") };
    assert_eq!(
        e.message(Service::Ollama, "/api/embed"),
        "Cannot compute centroid of empty vector list"
    );
    let Err(e) = conclude(&Err(RequestError::Url), vec![]) else { panic!("no address") };
    assert!(matches!(e, RunError::Request(RequestError::Url)));
    assert_eq!(
        e.message(Service::LlamaServer, "/embedding"),
        "Failed to join base_url with '/embedding'"
    );
}

fn encoded_picture(format: image::ImageFormat, width: u32) -> Vec<u8> {
    let mut bytes = std::io::Cursor::new(Vec::new());
    let picture = image::DynamicImage::new_rgb8(width, 2);
    if let Err(e) = picture.write_to(&mut bytes, format) {
        panic!("{e}");
    }
    bytes.into_inner()
}

#[test]
fn images_of_all_formats_are_decoded_in_order() {
    let formats = [
        image::ImageFormat::Jpeg,
        image::ImageFormat::Png,
        image::ImageFormat::Gif,
        image::ImageFormat::Bmp,
        image::ImageFormat::WebP,
        image::ImageFormat::Tiff,
    ];
    let files: Vec<Vec<u8>> =
        formats.iter().zip(3u32..).map(|(&f, width)| encoded_picture(f, width)).collect();
    let Ok(Some(pictures)) = decode_images(&files.to_embed_input()) else { panic!("all decode") };
    let widths: Vec<u32> = pictures.iter().map(|p| p.width()).collect();
    assert_eq!(widths, vec![3, 4, 5, 6, 7, 8]);
}

#[test]
fn one_bad_image_leaves_no_picture() {
    let good = encoded_picture(image::ImageFormat::Png, 1);
    let input = vec![good.clone(), b"no picture".to_vec(), good, vec![]].to_embed_input();
    assert!(matches!(decode_images(&input), Err(DecodeError::Picture { at: 1, .. })));
    assert!(matches!(decode_images(&images(&[])), Ok(None)));
    let empty_cell = EmbedInput { binary: true, cells: vec![None] };
    assert!(matches!(
        decode_images(&empty_cell),
        Err(DecodeError::Source(SourceError::Nullable))
    ));
    let text = EmbedInput { binary: false, cells: vec![] };
    assert!(matches!(decode_images(&text), Err(DecodeError::Source(SourceError::NotBinary))));
}

#[test]
fn decoded_images_count_only_together() {
    let picture = || Ok(image::DynamicImage::new_rgb8(1, 1));
    let none = || image::load_from_memory(b"");
    assert!(matches!(all_decoded(vec![picture(), picture()]), Ok(v) if v.len() == 2));
    assert!(matches!(all_decoded(vec![picture(), none(), none()]), Err((1, _))));
    assert!(matches!(all_decoded(vec![]), Ok(v) if v.is_empty()));
}
