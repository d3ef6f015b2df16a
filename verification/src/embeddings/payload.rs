//! The requests for embeddings, as the services want them.

use vstd::prelude::*;

verus! {

/// A digit to the base 16, in small letters.
pub open spec fn hex_digit(v: int) -> char {
    if v < 10 {
        ('0' as int + v) as char
    } else {
        ('a' as int + v - 10) as char
    }
}

/// A character inside a text of the JSON language.
pub open spec fn escaped(c: char) -> Seq<char> {
    let v = c as int;
    if c == '"' || c == '\\' {
        seq!['\\', c]
    } else if v == 8 {
        seq!['\\', 'b']
    } else if v == 9 {
        seq!['\\', 't']
    } else if v == 10 {
        seq!['\\', 'n']
    } else if v == 12 {
        seq!['\\', 'f']
    } else if v == 13 {
        seq!['\\', 'r']
    } else if v < 32 {
        seq!['\\', 'u', '0', '0', hex_digit(v / 16), hex_digit(v % 16)]
    } else {
        seq![c]
    }
}

pub open spec fn escaped_text(s: Seq<char>) -> Seq<char>
    decreases s.len(),
{
    if s.len() == 0 {
        Seq::empty()
    } else {
        escaped_text(s.drop_last()) + escaped(s.last())
    }
}

/// A text of the JSON language.
pub open spec fn json_text(s: Seq<char>) -> Seq<char> {
    seq!['"'] + escaped_text(s) + seq!['"']
}

/// A text of the JSON language.
///
/// Trusted: the `Display` form of a `serde_json::Value` that holds a text is that text in
/// double quotes, with the double quote, the backslash and the characters below the space
/// written as escapes, and everything else as it is.
#[verifier::external_body]
fn to_json_text(s: &str) -> (r: String)
    ensures
        r@ == json_text(s@),
{
    serde_json::Value::from(s).to_string()
}

/// The value of a digit to the base 16, in small letters.
pub open spec fn hex_value(c: char) -> Option<int> {
    if '0' <= c && c <= '9' {
        Some(c as int - '0' as int)
    } else if 'a' <= c && c <= 'f' {
        Some(c as int - 'a' as int + 10)
    } else {
        None
    }
}

/// Reads one character of a JSON text at `at`: the character, and where the next one
/// stands. At the closing quote there is none.
pub open spec fn read_char(t: Seq<char>, at: int) -> Option<(char, int)> {
    if at < 0 || at >= t.len() || t[at] == '"' {
        None
    } else if t[at] != '\\' {
        Some((t[at], at + 1))
    } else if at + 1 >= t.len() {
        None
    } else if t[at + 1] == '"' || t[at + 1] == '\\' {
        Some((t[at + 1], at + 2))
    } else if t[at + 1] == 'b' {
        Some((8int as char, at + 2))
    } else if t[at + 1] == 't' {
        Some((9int as char, at + 2))
    } else if t[at + 1] == 'n' {
        Some((10int as char, at + 2))
    } else if t[at + 1] == 'f' {
        Some((12int as char, at + 2))
    } else if t[at + 1] == 'r' {
        Some((13int as char, at + 2))
    } else if t[at + 1] == 'u' && at + 5 < t.len() {
        match (hex_value(t[at + 2]), hex_value(t[at + 3]), hex_value(t[at + 4]), hex_value(
            t[at + 5],
        )) {
            (Some(a), Some(b), Some(c), Some(d)) => {
                let v = ((a * 16 + b) * 16 + c) * 16 + d;
                if v < 0xd800 {
                    Some((v as char, at + 6))
                } else {
                    None
                }
            },
            _ => None,
        }
    } else {
        None
    }
}

/// Reads the rest of a JSON text whose opening quote stands before `at`: the text, and
/// where it ends.
pub open spec fn read_json_text(t: Seq<char>, at: int) -> Option<(Seq<char>, int)>
    decreases t.len() - at,
{
    if 0 <= at < t.len() && t[at] == '"' {
        Some((Seq::empty(), at + 1))
    } else {
        match read_char(t, at) {
            Some((c, next)) => if at < next {
                match read_json_text(t, next) {
                    Some((s, end)) => Some((seq![c] + s, end)),
                    None => None,
                }
            } else {
                None
            },
            None => None,
        }
    }
}

/// A character reads back.
proof fn lemma_escaped_reads_back(before: Seq<char>, c: char, behind: Seq<char>)
    ensures
        read_char(before + escaped(c) + behind, before.len() as int) == Some(
            (c, (before.len() + escaped(c).len()) as int),
        ),
        (before + escaped(c) + behind)[before.len() as int] != '"',
{
    let t = before + escaped(c) + behind;
    let at = before.len() as int;
    assert(t[at] == escaped(c)[0]);
    if escaped(c).len() > 1 {
        assert(t[at + 1] == escaped(c)[1]);
    }
    if escaped(c).len() > 2 {
        assert(t[at + 2] == '0' && t[at + 3] == '0');
        assert(t[at + 4] == hex_digit(c as int / 16) && t[at + 5] == hex_digit(c as int % 16));
        assert(hex_value(hex_digit(c as int / 16)) == Some(c as int / 16));
        assert(hex_value(hex_digit(c as int % 16)) == Some(c as int % 16));
    }
}

/// A text with its first character apart.
proof fn lemma_escaped_from_front(s: Seq<char>)
    requires
        s.len() > 0,
    ensures
        escaped_text(s) == escaped(s[0]) + escaped_text(s.drop_first()),
    decreases s.len(),
{
    if s.len() == 1 {
        assert(s.drop_last() =~= Seq::empty());
        assert(s.drop_first() =~= Seq::empty());
        assert(escaped_text(s) =~= escaped(s[0]) + escaped_text(s.drop_first()));
    } else {
        lemma_escaped_from_front(s.drop_last());
        assert(s.drop_last().drop_first() =~= s.drop_first().drop_last());
        assert(escaped_text(s) =~= escaped(s[0]) + escaped_text(s.drop_first()));
    }
}

proof fn lemma_escaped_text_reads_back(before: Seq<char>, s: Seq<char>, behind: Seq<char>)
    ensures
        read_json_text(before + escaped_text(s) + seq!['"'] + behind, before.len() as int) == Some(
            (s, (before.len() + escaped_text(s).len() + 1) as int),
        ),
    decreases s.len(),
{
    let t = before + escaped_text(s) + seq!['"'] + behind;
    if s.len() == 0 {
        assert(t[before.len() as int] == '"');
        assert(s =~= Seq::empty());
    } else {
        let rest = s.drop_first();
        let tail = escaped_text(rest) + seq!['"'] + behind;
        lemma_escaped_from_front(s);
        lemma_escaped_reads_back(before, s[0], tail);
        assert(before + escaped(s[0]) + tail =~= t);
        lemma_escaped_text_reads_back(before + escaped(s[0]), rest, behind);
        assert(before + escaped(s[0]) + escaped_text(rest) + seq!['"'] + behind =~= t);
        assert(seq![s[0]] + rest =~= s);
    }
}

/// What is sent is read: wherever the JSON form of a text stands, reading it gives the
/// text back and ends where the form ends.
pub proof fn lemma_json_text_reads_back(before: Seq<char>, s: Seq<char>, behind: Seq<char>)
    ensures
        read_json_text(before + json_text(s) + behind, before.len() as int + 1) == Some(
            (s, (before.len() + json_text(s).len()) as int),
        ),
{
    lemma_escaped_text_reads_back(before + seq!['"'], s, behind);
    assert(before + seq!['"'] + escaped_text(s) + seq!['"'] + behind =~= before + json_text(s)
        + behind);
}

/// The absolute address that a reference stands for, seen from a base address; `None`
/// where one of the two cannot be read.
pub uninterp spec fn joined_url(base: Seq<char>, reference: Seq<char>) -> Option<Seq<char>>;

/// The address that a reference stands for, seen from a base address.
///
/// Trusted: `Url::parse` of the base and `Url::join` of the reference go by the two texts
/// alone.
#[verifier::external_body]
pub(crate) fn join_url(base: &str, reference: &str) -> (url: Option<String>)
    ensures
        match url {
            Some(u) => joined_url(base@, reference@) == Some(u@),
            None => joined_url(base@, reference@) is None,
        },
{
    let base = url::Url::parse(base).ok()?;
    base.join(reference).ok().map(String::from)
}

/// The request for the embedding of an image, given as text, to a llama.cpp server.
pub open spec fn llama_request(image: Seq<char>) -> Seq<char> {
    "{\"content\":\"Image: [img-1]\",\"image_data\":[{\"data\":"@ + json_text(image) + ",\"id\":1}]}"@
}

/// The request for the embedding of an image, given as text, to an Ollama server.
pub open spec fn ollama_request(model: Seq<char>, image: Seq<char>) -> Seq<char> {
    "{\"images\":["@ + json_text(image) + "],\"input\":\"describe this image\",\"model\":"@
        + json_text(model) + "}"@
}

/// What stands before the image in a request to a llama.cpp server.
pub open spec fn llama_front() -> Seq<char> {
    "{\"content\":\"Image: [img-1]\",\"image_data\":[{\"data\":"@
}

/// What stands before the model in a request to an Ollama server for an image.
pub open spec fn ollama_front(image: Seq<char>) -> Seq<char> {
    "{\"images\":["@ + json_text(image) + "],\"input\":\"describe this image\",\"model\":"@
}

pub fn llama_request_body(image: &str) -> (s: String)
    ensures
        s@ == llama_request(image@),
        s@ == "{\"content\":\"Image: [img-1]\",\"image_data\":[{\"data\":"@ + json_text(image@)
            + ",\"id\":1}]}"@,
        read_json_text(s@, llama_front().len() as int + 1) == Some(
            (image@, (llama_front().len() + json_text(image@).len()) as int),
        ),
{
    let mut s = String::new();
    s.push_str("{\"content\":\"Image: [img-1]\",\"image_data\":[{\"data\":");
    s.push_str(to_json_text(image).as_str());
    s.push_str(",\"id\":1}]}");
    assert(s@ =~= llama_request(image@));
    proof {
        lemma_json_text_reads_back(llama_front(), image@, ",\"id\":1}]}"@);
    }
    s
}

pub fn ollama_request_body(model: &str, image: &str) -> (s: String)
    ensures
        s@ == ollama_request(model@, image@),
        s@ == "{\"images\":["@ + json_text(image@)
            + "],\"input\":\"describe this image\",\"model\":"@ + json_text(model@) + "}"@,
        read_json_text(s@, "{\"images\":["@.len() as int + 1) == Some(
            (image@, ("{\"images\":["@.len() + json_text(image@).len()) as int),
        ),
        read_json_text(s@, ollama_front(image@).len() as int + 1) == Some(
            (model@, (ollama_front(image@).len() + json_text(model@).len()) as int),
        ),
{
    let mut s = String::new();
    s.push_str("{\"images\":[");
    s.push_str(to_json_text(image).as_str());
    s.push_str("],\"input\":\"describe this image\",\"model\":");
    s.push_str(to_json_text(model).as_str());
    s.push_str("}");
    assert(s@ =~= ollama_request(model@, image@));
    proof {
        let behind = "],\"input\":\"describe this image\",\"model\":"@ + json_text(model@) + "}"@;
        assert(s@ =~= "{\"images\":["@ + json_text(image@) + behind);
        lemma_json_text_reads_back("{\"images\":["@, image@, behind);
        assert(s@ =~= ollama_front(image@) + json_text(model@) + "}"@);
        lemma_json_text_reads_back(ollama_front(image@), model@, "}"@);
    }
    s
}

/// The arguments come back from a request to Ollama: the text behind `"images":[` reads as
/// the image, and the one behind `"model":` reads as the model, whatever the two are.
pub proof fn lemma_ollama_request_reads_back(model: &str, image: &str, s: String)
    requires
        call_ensures(ollama_request_body, (model, image), s),
    ensures
        ({
            let images = "{\"images\":["@;
            let middle = "],\"input\":\"describe this image\",\"model\":"@;
            let first = read_json_text(s@, images.len() as int + 1);
            &&& s@.len() > images.len()
            &&& s@.take(images.len() as int) == images
            &&& s@[images.len() as int] == '"'
            &&& first is Some
            &&& (first->0).0 == image@
            &&& s@.subrange((first->0).1, (first->0).1 + middle.len()) == middle
            &&& s@[(first->0).1 + middle.len()] == '"'
            &&& read_json_text(s@, (first->0).1 + middle.len() + 1) is Some
            &&& (read_json_text(s@, (first->0).1 + middle.len() + 1)->0).0 == model@
            &&& s@.subrange(
                (read_json_text(s@, (first->0).1 + middle.len() + 1)->0).1,
                s@.len() as int,
            ) == "}"@
        }),
{
    let images = "{\"images\":["@;
    let middle = "],\"input\":\"describe this image\",\"model\":"@;
    let text = images + json_text(image@) + middle + json_text(model@) + "}"@;
    assert(s@ == text);
    let end: int = (images.len() + json_text(image@).len()) as int;
    assert(s@.take(images.len() as int) =~= images);
    assert(s@.subrange(end, end + middle.len()) =~= middle);
    let close: int = end + middle.len() + json_text(model@).len();
    assert(s@.subrange(close, s@.len() as int) =~= "}"@);
    assert(ollama_front(image@).len() == end + middle.len());
}

/// The image comes back from a request to a llama.cpp server.
pub proof fn lemma_llama_request_reads_back(image: &str, s: String)
    requires
        call_ensures(llama_request_body, (image,), s),
    ensures
        ({
            let front = "{\"content\":\"Image: [img-1]\",\"image_data\":[{\"data\":"@;
            let read = read_json_text(s@, front.len() as int + 1);
            &&& s@.len() > front.len()
            &&& s@.take(front.len() as int) == front
            &&& s@[front.len() as int] == '"'
            &&& read is Some
            &&& (read->0).0 == image@
            &&& s@.subrange((read->0).1, s@.len() as int) == ",\"id\":1}]}"@
        }),
{
    let front = "{\"content\":\"Image: [img-1]\",\"image_data\":[{\"data\":"@;
    assert(s@ == front + json_text(image@) + ",\"id\":1}]}"@);
    assert(llama_front() == front);
    assert(s@.take(front.len() as int) =~= front);
    assert(s@.subrange((front.len() + json_text(image@).len()) as int, s@.len() as int)
        =~= ",\"id\":1}]}"@);
}

/// Requests differ where the models or the images do.
pub proof fn lemma_requests_tell_models_and_images_apart(
    model_a: &str,
    image_a: &str,
    a: String,
    model_b: &str,
    image_b: &str,
    b: String,
)
    requires
        call_ensures(ollama_request_body, (model_a, image_a), a),
        call_ensures(ollama_request_body, (model_b, image_b), b),
        a@ == b@,
    ensures
        model_a@ == model_b@,
        image_a@ == image_b@,
{
    lemma_ollama_request_reads_back(model_a, image_a, a);
    lemma_ollama_request_reads_back(model_b, image_b, b);
}

/// A text without double quotes, backslashes and characters below the space stands in the
/// JSON language as it is, between quotes.
pub proof fn lemma_plain_texts_stay(s: Seq<char>)
    requires
        forall|i: int|
            0 <= i < s.len() ==> (#[trigger] s[i]) as int >= 32 && s[i] != '"' && s[i] != '\\',
    ensures
        json_text(s) == seq!['"'] + s + seq!['"'],
    decreases s.len(),
{
    lemma_plain_body_stays(s);
}

proof fn lemma_plain_body_stays(s: Seq<char>)
    requires
        forall|i: int|
            0 <= i < s.len() ==> (#[trigger] s[i]) as int >= 32 && s[i] != '"' && s[i] != '\\',
    ensures
        escaped_text(s) == s,
    decreases s.len(),
{
    if s.len() == 0 {
        assert(escaped_text(s) =~= s);
    } else {
        assert(s.last() as int >= 32 && s.last() != '"' && s.last() != '\\') by {
            assert(s[s.len() - 1] == s.last());
        }
        lemma_plain_body_stays(s.drop_last());
        assert(escaped_text(s) =~= s);
    }
}

/// Each character is escaped by itself: a double quote and a backslash behind a backslash.
pub proof fn lemma_texts_are_escaped_piece_by_piece(a: Seq<char>, b: Seq<char>)
    ensures
        escaped_text(a + b) == escaped_text(a) + escaped_text(b),
        escaped_text(seq!['"']) == seq!['\\', '"'],
        escaped_text(seq!['\\']) == seq!['\\', '\\'],
        escaped_text(seq!['\n']) == seq!['\\', 'n'],
    decreases b.len(),
{
    reveal_with_fuel(escaped_text, 2);
    assert(seq!['"'].drop_last() =~= Seq::empty());
    assert(seq!['\\'].drop_last() =~= Seq::empty());
    assert(seq!['\n'].drop_last() =~= Seq::empty());
    assert(escaped_text(seq!['"']) =~= seq!['\\', '"']);
    assert(escaped_text(seq!['\\']) =~= seq!['\\', '\\']);
    assert(escaped_text(seq!['\n']) =~= seq!['\\', 'n']);
    if b.len() == 0 {
        assert(a + b =~= a);
        assert(escaped_text(a + b) =~= escaped_text(a) + escaped_text(b));
    } else {
        lemma_texts_are_escaped_piece_by_piece(a, b.drop_last());
        assert((a + b).drop_last() =~= a + b.drop_last());
        assert((a + b).last() == b.last());
        assert(escaped_text(a + b) =~= escaped_text(a) + escaped_text(b));
    }
}

} // verus!
