//! The pictures that a model in the process is given.

use vstd::prelude::*;

use crate::embeddings::input::{check_source, source_error, EmbedInput, SourceError};

verus! {

/// Trusted: a decoded picture of the `image` crate. It is carried, not looked into.
#[verifier::external_type_specification]
#[verifier::external_body]
pub struct ExDynamicImage(image::DynamicImage);

/// Trusted: what the `image` crate says of bytes that are no picture. It is carried, not
/// looked into.
#[verifier::external_type_specification]
#[verifier::external_body]
pub struct ExImageError(image::ImageError);

/// The picture that bytes hold, or why they hold none.
///
/// Trusted: `image::load_from_memory` guesses the format from the bytes and decodes them.
/// Nothing is said of what comes back: a process can register decoders of its own, so it
/// is not settled by the bytes alone.
#[verifier::external_body]
fn decode_image(bytes: &[u8]) -> (picture: Result<image::DynamicImage, image::ImageError>) {
    image::load_from_memory(bytes)
}

/// Whether this picture, or this error, is something that decoding these bytes came to:
/// the outcome of a call of `decode_image` on them.
pub closed spec fn may_decode_to(
    bytes: Seq<u8>,
    picture: Result<image::DynamicImage, image::ImageError>,
) -> bool {
    exists|s: &[u8]| s@ == bytes && #[trigger] call_ensures(decode_image, (s,), picture)
}

/// Whether decoding these bytes came to a picture.
pub open spec fn may_decode(bytes: Seq<u8>) -> bool {
    exists|picture: image::DynamicImage| #[trigger]
        may_decode_to(bytes, Ok::<image::DynamicImage, image::ImageError>(picture))
}

/// Why there are no pictures.
pub enum DecodeError {
    Source(SourceError),
    /// The image at this place is none.
    Picture { at: usize, why: image::ImageError },
}

/// The pictures, in their order, if all images were decoded; otherwise the first that was
/// not.
pub fn all_decoded(decoded: Vec<Result<image::DynamicImage, image::ImageError>>) -> (r: Result<
    Vec<image::DynamicImage>,
    (usize, image::ImageError),
>)
    ensures
        match r {
            Ok(pictures) => pictures@.len() == decoded@.len() && forall|i: int|
                0 <= i < decoded@.len() ==> decoded@[i] == Ok::<
                    image::DynamicImage,
                    image::ImageError,
                >(#[trigger] pictures@[i]),
            Err((at, why)) => at < decoded@.len() && decoded@[at as int] == Err::<
                image::DynamicImage,
                image::ImageError,
            >(why) && forall|i: int| 0 <= i < at ==> (#[trigger] decoded@[i]) is Ok,
        },
{
    let ghost all = decoded@;
    let mut pictures: Vec<image::DynamicImage> = Vec::new();
    for one in walk: decoded
        invariant
            walk.seq() == all,
            pictures@.len() == walk.index(),
            forall|i: int|
                0 <= i < pictures@.len() ==> all[i] == Ok::<image::DynamicImage, image::ImageError>(
                    #[trigger] pictures@[i],
                ),
    {
        match one {
            Ok(picture) => {
                pictures.push(picture);
            },
            Err(why) => {
                assert forall|i: int| 0 <= i < pictures@.len() implies (#[trigger] all[i]) is Ok by {
                    assert(all[i] == Ok::<image::DynamicImage, image::ImageError>(pictures@[i]));
                }
                return Err((pictures.len(), why));
            },
        }
    }
    Ok(pictures)
}

/// The pictures of an input, each decoded from the image in its place; `None` where there
/// are no images. The first image that cannot be decoded leaves the model without any
/// picture.
pub fn decode_images(input: &EmbedInput) -> (r: Result<
    Option<Vec<image::DynamicImage>>,
    DecodeError,
>)
    ensures
        match source_error(*input) {
            Some(e) => r == Err::<Option<Vec<image::DynamicImage>>, DecodeError>(
                DecodeError::Source(e),
            ),
            None => match r {
                Ok(None) => input.cells@.len() == 0,
                Ok(Some(pictures)) => {
                    &&& input.cells@.len() > 0
                    &&& pictures@.len() == input.cells@.len()
                    &&& forall|i: int|
                        0 <= i < pictures@.len() ==> may_decode_to(
                            input.cells@[i]->0@,
                            Ok::<image::DynamicImage, image::ImageError>(#[trigger] pictures@[i]),
                        )
                },
                Err(DecodeError::Picture { at, why }) => {
                    &&& at < input.cells@.len()
                    &&& may_decode_to(
                        input.cells@[at as int]->0@,
                        Err::<image::DynamicImage, image::ImageError>(why),
                    )
                    &&& forall|j: int|
                        0 <= j < at ==> may_decode((#[trigger] input.cells@[j])->0@)
                },
                Err(DecodeError::Source(_)) => false,
            },
        },
{
    if let Err(e) = check_source(input) {
        return Err(DecodeError::Source(e));
    }
    if input.cells.len() == 0 {
        return Ok(None);
    }
    let mut decoded: Vec<Result<image::DynamicImage, image::ImageError>> = Vec::new();
    let mut whole: bool = true;
    let mut i: usize = 0;
    while i < input.cells.len() && whole
        invariant
            i <= input.cells@.len(),
            !input.nullable(),
            decoded@.len() == i,
            forall|j: int|
                0 <= j < i ==> may_decode_to(input.cells@[j]->0@, #[trigger] decoded@[j]),
            whole ==> forall|j: int| 0 <= j < i ==> (#[trigger] decoded@[j]) is Ok,
            !whole ==> i > 0 && decoded@[i - 1] is Err,
        decreases input.cells@.len() - i,
    {
        if let Some(bytes) = &input.cells[i] {
            let image: &[u8] = bytes.as_slice();
            let one = decode_image(image);
            assert(call_ensures(decode_image, (image,), one));
            whole = one.is_ok();
            decoded.push(one);
        } else {
            assert(input.cells@[i as int] is None);
        }
        i = i + 1;
    }
    let ghost tried = decoded@;
    match all_decoded(decoded) {
        Ok(pictures) => {
            assert(tried[i - 1] == Ok::<image::DynamicImage, image::ImageError>(pictures@[i - 1]));
            assert forall|k: int| 0 <= k < pictures@.len() implies may_decode_to(
                input.cells@[k]->0@,
                Ok::<image::DynamicImage, image::ImageError>(#[trigger] pictures@[k]),
            ) by {
                assert(may_decode_to(input.cells@[k]->0@, tried[k]));
            }
            Ok(Some(pictures))
        },
        Err((at, why)) => {
            assert(may_decode_to(input.cells@[at as int]->0@, tried[at as int]));
            assert forall|j: int| 0 <= j < at implies may_decode(
                (#[trigger] input.cells@[j])->0@,
            ) by {
                assert(tried[j] is Ok);
                assert(may_decode_to(input.cells@[j]->0@, tried[j]));
                assert(tried[j] == Ok::<image::DynamicImage, image::ImageError>(tried[j]->Ok_0));
            }
            Err(DecodeError::Picture { at, why })
        },
    }
}

/// What bytes were decoded to came from decoding those bytes.
proof fn lemma_pictures_come_from_their_bytes(
    bytes: Seq<u8>,
    picture: Result<image::DynamicImage, image::ImageError>,
)
    requires
        may_decode_to(bytes, picture),
    ensures
        exists|s: &[u8]| s@ == bytes && #[trigger] call_ensures(decode_image, (s,), picture),
{
}

/// Bytes that may be decoded have a picture.
pub proof fn lemma_decoded_bytes_have_a_picture(bytes: Seq<u8>)
    requires
        may_decode(bytes),
    ensures
        exists|picture: image::DynamicImage| #[trigger]
            may_decode_to(bytes, Ok::<image::DynamicImage, image::ImageError>(picture)),
{
}

/// Each picture is decoded from the image in its place, and there are as many as images.
pub proof fn lemma_each_image_gives_its_own_picture(
    input: EmbedInput,
    r: Result<Option<Vec<image::DynamicImage>>, DecodeError>,
    i: int,
)
    requires
        call_ensures(decode_images, (&input,), r),
        r is Ok,
        0 <= i < input.cells@.len(),
    ensures
        r->Ok_0 is Some,
        (r->Ok_0->0)@.len() == input.cells@.len(),
        input.cells@[i] is Some,
        may_decode_to(
            input.cells@[i]->0@,
            Ok::<image::DynamicImage, image::ImageError>((r->Ok_0->0)@[i]),
        ),
{
}

} // verus!
