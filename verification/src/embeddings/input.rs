//! What an embedder is given, and what it sends on.

use vstd::prelude::*;

use crate::embeddings::base64_text::{base64_of, encode, encoded_len};

verus! {

/// A column of cells. A cell may be empty.
pub struct EmbedInput {
    /// Whether the cells hold bytes.
    pub binary: bool,
    pub cells: Vec<Option<Vec<u8>>>,
}

pub open spec fn cell_view(cell: Option<Vec<u8>>) -> Option<Seq<u8>> {
    match cell {
        Some(bytes) => Some(bytes@),
        None => None,
    }
}

impl EmbedInput {
    /// The contents of the cells.
    pub open spec fn contents(self) -> Seq<Option<Seq<u8>>> {
        Seq::new(self.cells@.len(), |i: int| cell_view(self.cells@[i]))
    }

    /// Whether a cell is empty.
    pub open spec fn nullable(self) -> bool {
        exists|i: int| 0 <= i < self.cells@.len() && (#[trigger] self.cells@[i]) is None
    }

    /// Whether the text of every cell fits into the machine's memory.
    pub open spec fn fits(self) -> bool {
        forall|i: int|
            0 <= i < self.cells@.len() && (#[trigger] self.cells@[i]) is Some ==> encoded_len(
                self.cells@[i]->0@.len() as int,
            ) <= isize::MAX
    }

    /// Whether the text of every cell fits into the machine's memory.
    pub fn is_encodable(&self) -> (b: bool)
        ensures
            b == self.fits(),
            b == forall|i: int|
                0 <= i < self.cells@.len() && (#[trigger] self.cells@[i]) is Some ==> (
                self.cells@[i]->0@.len() + 2) / 3 * 4 <= isize::MAX,
    {
        let limit: usize = isize::MAX as usize / 4;
        let mut i: usize = 0;
        while i < self.cells.len()
            invariant
                i <= self.cells@.len(),
                limit == isize::MAX as usize / 4,
                forall|j: int|
                    0 <= j < i && (#[trigger] self.cells@[j]) is Some ==> encoded_len(
                        self.cells@[j]->0@.len() as int,
                    ) <= isize::MAX,
            decreases self.cells@.len() - i,
        {
            if let Some(bytes) = &self.cells[i] {
                let len: usize = bytes.len();
                let groups: usize = if len % 3 == 0 {
                    len / 3
                } else {
                    len / 3 + 1
                };
                assert(encoded_len(len as int) == groups * 4);
                if groups > limit {
                    assert(self.cells@[i as int] is Some);
                    return false;
                }
            }
            i = i + 1;
        }
        true
    }

    pub fn is_nullable(&self) -> (b: bool)
        ensures
            b == self.nullable(),
            b == exists|i: int| 0 <= i < self.cells@.len() && (#[trigger] self.cells@[i]) is None,
    {
        let mut i: usize = 0;
        while i < self.cells.len()
            invariant
                i <= self.cells@.len(),
                forall|j: int| 0 <= j < i ==> (#[trigger] self.cells@[j]) is Some,
            decreases self.cells@.len() - i,
        {
            if self.cells[i].is_none() {
                assert(self.cells@[i as int] is None);
                return true;
            }
            i = i + 1;
        }
        false
    }
}

/// What can be given to an embedder.
pub trait ToEmbedInput: Sized {
    /// The cells that it becomes.
    spec fn input_contents(self) -> Seq<Option<Seq<u8>>>;

    /// Whether it becomes cells of bytes.
    spec fn input_binary(self) -> bool;

    fn to_embed_input(self) -> (input: EmbedInput)
        ensures
            input.contents() == self.input_contents(),
            input.binary == self.input_binary(),
    ;
}

impl ToEmbedInput for EmbedInput {
    open spec fn input_contents(self) -> Seq<Option<Seq<u8>>> {
        self.contents()
    }

    open spec fn input_binary(self) -> bool {
        self.binary
    }

    fn to_embed_input(self) -> (input: EmbedInput)
        ensures
            input == self,
    {
        self
    }
}

impl ToEmbedInput for Vec<Vec<u8>> {
    open spec fn input_contents(self) -> Seq<Option<Seq<u8>>> {
        Seq::new(self@.len(), |i: int| Some(self@[i]@))
    }

    open spec fn input_binary(self) -> bool {
        true
    }

    fn to_embed_input(self) -> (input: EmbedInput)
        ensures
            input.binary,
            input.cells@.len() == self@.len(),
            forall|i: int| 0 <= i < self@.len() ==> #[trigger] input.cells@[i] == Some(self@[i]),
    {
        let ghost all = self@;
        let mut cells: Vec<Option<Vec<u8>>> = Vec::new();
        for bytes in walk: self
            invariant
                walk.seq() == all,
                cells@.len() == walk.index(),
                forall|i: int| 0 <= i < cells@.len() ==> #[trigger] cells@[i] == Some(all[i]),
        {
            cells.push(Some(bytes));
        }
        let input = EmbedInput { binary: true, cells };
        assert(input.contents() =~= self.input_contents());
        input
    }
}

impl<'a> ToEmbedInput for Vec<&'a [u8]> {
    open spec fn input_contents(self) -> Seq<Option<Seq<u8>>> {
        Seq::new(self@.len(), |i: int| Some(self@[i]@))
    }

    open spec fn input_binary(self) -> bool {
        true
    }

    fn to_embed_input(self) -> (input: EmbedInput)
        ensures
            input.binary,
            input.cells@.len() == self@.len(),
            forall|i: int|
                0 <= i < self@.len() ==> (#[trigger] input.cells@[i]) is Some && input.cells@[i]->0@
                    == self@[i]@,
    {
        let mut cells: Vec<Option<Vec<u8>>> = Vec::new();
        let mut i: usize = 0;
        while i < self.len()
            invariant
                i <= self@.len(),
                cells@.len() == i,
                forall|j: int| 0 <= j < i ==> cell_view(#[trigger] cells@[j]) == Some(self@[j]@),
            decreases self@.len() - i,
        {
            let bytes: Vec<u8> = vstd::slice::slice_to_vec(self[i]);
            cells.push(Some(bytes));
            i = i + 1;
        }
        let input = EmbedInput { binary: true, cells };
        assert(input.contents() =~= self.input_contents());
        input
    }
}

/// Why an embedder refuses its input.
#[derive(Clone, Copy, PartialEq, Eq, Structural, Debug)]
pub enum SourceError {
    Nullable,
    NotBinary,
}

impl SourceError {
    pub open spec fn text(self) -> Seq<char> {
        match self {
            SourceError::Nullable => "Expected non-nullable data type"@,
            SourceError::NotBinary => "Expected Binary data type"@,
        }
    }

    pub fn message(&self) -> (s: &'static str)
        ensures
            s@ == self.text(),
            *self == SourceError::Nullable ==> s@ == "Expected non-nullable data type"@,
            *self == SourceError::NotBinary ==> s@ == "Expected Binary data type"@,
    {
        match self {
            SourceError::Nullable => "Expected non-nullable data type",
            SourceError::NotBinary => "Expected Binary data type",
        }
    }
}

/// What is wrong with an input, if anything is.
pub open spec fn source_error(input: EmbedInput) -> Option<SourceError> {
    if input.nullable() {
        Some(SourceError::Nullable)
    } else if !input.binary {
        Some(SourceError::NotBinary)
    } else {
        None
    }
}

/// Accepts an input, or says what is wrong with it.
pub fn check_source(input: &EmbedInput) -> (r: Result<(), SourceError>)
    ensures
        r == (match source_error(*input) {
            Some(e) => Err::<(), SourceError>(e),
            None => Ok(()),
        }),
        r == Err::<(), SourceError>(SourceError::Nullable) <==> exists|i: int|
            0 <= i < input.cells@.len() && (#[trigger] input.cells@[i]) is None,
        r is Ok <==> input.binary && forall|i: int|
            0 <= i < input.cells@.len() ==> (#[trigger] input.cells@[i]) is Some,
{
    if input.is_nullable() {
        Err(SourceError::Nullable)
    } else if !input.binary {
        Err(SourceError::NotBinary)
    } else {
        Ok(())
    }
}

/// The images of an input as texts, in their order.
pub fn encode_images(input: &EmbedInput) -> (r: Result<Vec<String>, SourceError>)
    requires
        input.fits(),
    ensures
        match source_error(*input) {
            Some(e) => r == Err::<Vec<String>, SourceError>(e),
            None => r is Ok && r->Ok_0@.len() == input.cells@.len() && forall|i: int|
                0 <= i < input.cells@.len() ==> (#[trigger] r->Ok_0@[i])@ == base64_of(
                    input.cells@[i]->0@,
                ),
        },
        r is Ok <==> input.binary && forall|i: int|
            0 <= i < input.cells@.len() ==> (#[trigger] input.cells@[i]) is Some,
        r matches Ok(texts) ==> texts@.len() == input.cells@.len(),
{
    if let Err(e) = check_source(input) {
        return Err(e);
    }
    let mut texts: Vec<String> = Vec::new();
    let mut i: usize = 0;
    while i < input.cells.len()
        invariant
            i <= input.cells@.len(),
            input.fits(),
            !input.nullable(),
            texts@.len() == i,
            forall|j: int|
                0 <= j < i ==> (#[trigger] texts@[j])@ == base64_of(input.cells@[j]->0@),
        decreases input.cells@.len() - i,
    {
        if let Some(bytes) = &input.cells[i] {
            assert(input.cells@[i as int] is Some);
            texts.push(encode(bytes.as_slice()));
        } else {
            assert(input.cells@[i as int] is None);
        }
        i = i + 1;
    }
    Ok(texts)
}

/// What is wrong with an input depends on two things alone: an empty cell comes first, and
/// only then what the cells hold.
pub proof fn lemma_inputs_are_refused_for_two_reasons(input: EmbedInput)
    ensures
        source_error(input) == Some(SourceError::Nullable) <==> exists|i: int|
            0 <= i < input.cells@.len() && (#[trigger] input.cells@[i]) is None,
        source_error(input) is None <==> input.binary && forall|i: int|
            0 <= i < input.cells@.len() ==> (#[trigger] input.cells@[i]) is Some,
        SourceError::Nullable.text() == "Expected non-nullable data type"@,
        SourceError::NotBinary.text() == "Expected Binary data type"@,
        input.contents().len() == input.cells@.len(),
        forall|i: int|
            0 <= i < input.cells@.len() ==> ((#[trigger] input.contents()[i]) is Some
                <==> input.cells@[i] is Some) && (input.cells@[i] is Some ==> input.contents()[i]->0
                == input.cells@[i]->0@),
{
}

} // verus!
