//! Bringing the vectors of an answer together, to be averaged.

use vstd::prelude::*;

use crate::ieee::Real32;
use crate::matrix::{row_of, shape_fault, Matrix, ShapeFault};

verus! {

/// The length above which an average is scaled to length one: one over ten thousand
/// million, in single precision.
pub const LENGTH_FLOOR_32: u32 = 0x2edb_e6ff;

/// Why there is no average.
#[derive(Clone, Copy, PartialEq, Eq, Structural, Debug)]
pub enum CentroidError {
    /// The answer holds no result.
    NoResult,
    /// The result holds no vector.
    Empty,
    /// The vectors do not make up as many rows of the length of the first.
    Shape(ShapeFault),
}

impl CentroidError {
    pub open spec fn text(self) -> Seq<char> {
        match self {
            CentroidError::NoResult => "Failed to get embedding result"@,
            CentroidError::Empty => "Cannot compute centroid of empty vector list"@,
            CentroidError::Shape(fault) => "Failed to create ndarray: "@ + fault.text(),
        }
    }

    pub fn message(&self) -> (s: String)
        ensures
            s@ == self.text(),
            *self == CentroidError::NoResult ==> s@ == "Failed to get embedding result"@,
            *self == CentroidError::Empty ==> s@ == "Cannot compute centroid of empty vector list"@,
            *self matches CentroidError::Shape(fault) ==> s@ == "Failed to create ndarray: "@
                + fault.text(),
    {
        let mut s = String::new();
        match self {
            CentroidError::NoResult => {
                s.push_str("Failed to get embedding result");
            },
            CentroidError::Empty => {
                s.push_str("Cannot compute centroid of empty vector list");
            },
            CentroidError::Shape(fault) => {
                s.push_str("Failed to create ndarray: ");
                s.push_str(fault.message());
            },
        }
        assert(s@ =~= self.text());
        s
    }
}

/// The shape and the numbers of a matrix.
pub ghost struct Stack {
    pub n_rows: int,
    pub n_cols: int,
    pub data: Seq<Real32>,
}

pub open spec fn stack_of(m: Matrix) -> Stack {
    Stack { n_rows: m.n_rows as int, n_cols: m.n_cols as int, data: m.data@ }
}

/// The numbers of the vectors, one vector after another.
pub open spec fn joined(vectors: Seq<Vec<Real32>>) -> Seq<Real32>
    decreases vectors.len(),
{
    if vectors.len() == 0 {
        Seq::empty()
    } else {
        joined(vectors.drop_last()) + vectors.last()@
    }
}

/// The numbers of the vectors, one vector after another.
pub fn join_vectors(vectors: &Vec<Vec<Real32>>) -> (flat: Vec<Real32>)
    ensures
        flat@ == joined(vectors@),
{
    let mut flat: Vec<Real32> = Vec::new();
    let mut i: usize = 0;
    while i < vectors.len()
        invariant
            i <= vectors@.len(),
            flat@ == joined(vectors@.take(i as int)),
        decreases vectors@.len() - i,
    {
        assert(vectors@.take(i + 1).drop_last() =~= vectors@.take(i as int));
        let ghost before = flat@;
        let row: &Vec<Real32> = &vectors[i];
        let mut j: usize = 0;
        while j < row.len()
            invariant
                j <= row@.len(),
                flat@ == before + row@.take(j as int),
            decreases row@.len() - j,
        {
            flat.push(row[j]);
            assert(flat@ =~= before + row@.take(j + 1));
            j = j + 1;
        }
        assert(row@.take(row@.len() as int) =~= row@);
        i = i + 1;
    }
    assert(vectors@.take(vectors@.len() as int) =~= vectors@);
    flat
}

/// The vectors as the rows of a matrix, as long as the first. Only the count of all
/// numbers is looked at, not the length of each vector.
pub open spec fn stacked(vectors: Seq<Vec<Real32>>) -> Result<Stack, CentroidError> {
    if vectors.len() == 0 {
        Err(CentroidError::Empty)
    } else {
        match shape_fault(
            vectors.len() as int,
            vectors[0]@.len() as int,
            joined(vectors).len() as int,
        ) {
            Some(fault) => Err(CentroidError::Shape(fault)),
            None => Ok(
                Stack {
                    n_rows: vectors.len() as int,
                    n_cols: vectors[0]@.len() as int,
                    data: joined(vectors),
                },
            ),
        }
    }
}

/// What the first result of an answer of a llama.cpp server gives to average.
pub open spec fn first_stacked(results: Seq<Vec<Vec<Real32>>>) -> Result<Stack, CentroidError> {
    if results.len() == 0 {
        Err(CentroidError::NoResult)
    } else {
        stacked(results[0]@)
    }
}

/// Whether `r` is the matrix, or the error, that `wanted` describes.
pub open spec fn is_stack(wanted: Result<Stack, CentroidError>, r: Result<Matrix, CentroidError>) -> bool {
    match wanted {
        Ok(stack) => r is Ok && r->Ok_0.wf() && stack_of(r->Ok_0) == stack,
        Err(e) => r == Err::<Matrix, CentroidError>(e),
    }
}

/// The vectors as the rows of a matrix, as long as the first.
pub fn stack_vectors(vectors: &Vec<Vec<Real32>>) -> (r: Result<Matrix, CentroidError>)
    ensures
        is_stack(stacked(vectors@), r),
        vectors@.len() == 0 ==> r == Err::<Matrix, CentroidError>(CentroidError::Empty),
        vectors@.len() > 0 && (forall|k: int|
            0 <= k < vectors@.len() ==> (#[trigger] vectors@[k])@.len() == vectors@[0]@.len())
            && vectors@[0]@.len() > 0 && vectors@.len() * vectors@[0]@.len() <= isize::MAX ==> {
            &&& r is Ok
            &&& r->Ok_0.n_rows == vectors@.len()
            &&& r->Ok_0.n_cols == vectors@[0]@.len()
            &&& forall|i: int|
                0 <= i < vectors@.len() ==> #[trigger] r->Ok_0.row(i) == vectors@[i]@
        },
        r matches Ok(m) ==> m.n_rows == vectors@.len() && m.n_cols == vectors@[0]@.len(),
        r matches Ok(m) ==> m.data@ == joined(vectors@),
        vectors@.len() > 0 && vectors@[0]@.len() > 0 && vectors@.len() * vectors@[0]@.len()
            <= isize::MAX ==> {
            &&& joined(vectors@).len() == vectors@.len() * vectors@[0]@.len() ==> r is Ok
            &&& joined(vectors@).len() < vectors@.len() * vectors@[0]@.len() ==> r == Err::<
                Matrix,
                CentroidError,
            >(CentroidError::Shape(ShapeFault::OutOfBounds))
            &&& joined(vectors@).len() > vectors@.len() * vectors@[0]@.len() ==> r == Err::<
                Matrix,
                CentroidError,
            >(CentroidError::Shape(ShapeFault::IncompatibleShape))
        },
{
    if vectors.len() == 0 {
        return Err(CentroidError::Empty);
    }
    let flat = join_vectors(vectors);
    proof {
        let d = vectors@[0]@.len();
        if forall|k: int| 0 <= k < vectors@.len() ==> (#[trigger] vectors@[k])@.len() == d {
            lemma_joined_len(vectors@, d);
            assert forall|i: int| 0 <= i < vectors@.len() implies #[trigger] row_of(
                flat@,
                d as int,
                i,
            ) == vectors@[i]@ by {
                lemma_joined_vectors_are_rows(vectors@, d, i);
            }
        }
    }
    match Matrix::from_shape_vec(vectors.len(), vectors[0].len(), flat) {
        Ok(m) => Ok(m),
        Err(fault) => Err(CentroidError::Shape(fault)),
    }
}

/// Vectors of one length stay apart: joined, the vector at `i` is row `i`.
pub proof fn lemma_joined_vectors_are_rows(vectors: Seq<Vec<Real32>>, dim: nat, i: int)
    requires
        forall|k: int| 0 <= k < vectors.len() ==> (#[trigger] vectors[k])@.len() == dim,
        0 <= i < vectors.len(),
    ensures
        joined(vectors).len() == vectors.len() * dim,
        row_of(joined(vectors), dim as int, i) == vectors[i]@,
    decreases vectors.len(),
{
    let last = vectors.len() - 1;
    let shorter = vectors.drop_last();
    lemma_joined_len(vectors, dim);
    lemma_joined_len(shorter, dim);
    assert((last + 1) * dim == last * dim + dim) by (nonlinear_arith);
    if i == last {
        assert(row_of(joined(vectors), dim as int, i) =~= vectors[i]@);
    } else {
        assert(forall|k: int| 0 <= k < shorter.len() ==> #[trigger] shorter[k] == vectors[k]);
        lemma_joined_vectors_are_rows(shorter, dim, i);
        assert(0 <= i * dim && i * dim + dim <= last * dim) by (nonlinear_arith)
            requires
                0 <= i < last,
                0 <= dim,
        ;
        assert(row_of(joined(vectors), dim as int, i) =~= row_of(joined(shorter), dim as int, i));
    }
}

proof fn lemma_joined_len(vectors: Seq<Vec<Real32>>, dim: nat)
    requires
        forall|k: int| 0 <= k < vectors.len() ==> (#[trigger] vectors[k])@.len() == dim,
    ensures
        joined(vectors).len() == vectors.len() * dim,
    decreases vectors.len(),
{
    if vectors.len() > 0 {
        lemma_joined_len(vectors.drop_last(), dim);
        let last = vectors.len() - 1;
        assert((last + 1) * dim == last * dim + dim) by (nonlinear_arith);
    } else {
        assert(vectors.len() * dim == 0) by (nonlinear_arith)
            requires
                vectors.len() == 0,
        ;
    }
}

/// The vectors of the first result of an answer.
pub fn first_result(results: &Vec<Vec<Vec<Real32>>>) -> (r: Result<&Vec<Vec<Real32>>, CentroidError>)
    ensures
        results@.len() == 0 ==> r == Err::<&Vec<Vec<Real32>>, CentroidError>(
            CentroidError::NoResult,
        ),
        results@.len() > 0 ==> r == Ok::<&Vec<Vec<Real32>>, CentroidError>(&results@[0]),
{
    if results.len() == 0 {
        Err(CentroidError::NoResult)
    } else {
        Ok(&results[0])
    }
}

/// The vectors to average from an answer of a llama.cpp server.
pub fn stack_first_result(results: &Vec<Vec<Vec<Real32>>>) -> (r: Result<Matrix, CentroidError>)
    ensures
        is_stack(first_stacked(results@), r),
        results@.len() == 0 ==> r == Err::<Matrix, CentroidError>(CentroidError::NoResult),
        results@.len() > 0 ==> is_stack(stacked(results@[0]@), r),
        results@.len() > 0 && results@[0]@.len() > 0 && (forall|k: int|
            0 <= k < results@[0]@.len() ==> (#[trigger] results@[0]@[k])@.len()
                == results@[0]@[0]@.len()) && results@[0]@[0]@.len() > 0 && results@[0]@.len()
            * results@[0]@[0]@.len() <= isize::MAX ==> {
            &&& r is Ok
            &&& r->Ok_0.n_rows == results@[0]@.len()
            &&& r->Ok_0.n_cols == results@[0]@[0]@.len()
            &&& forall|i: int|
                0 <= i < results@[0]@.len() ==> #[trigger] r->Ok_0.row(i) == results@[0]@[i]@
        },
{
    match first_result(results) {
        Ok(vectors) => stack_vectors(vectors),
        Err(e) => Err(e),
    }
}

/// Whether an average of this length is scaled to length one.
pub fn is_scaled(length: Real32) -> (b: bool)
    ensures
        b == (Real32 { bits: LENGTH_FLOOR_32 }).below(length),
        b == (0x2edb_e6ff < length.bits <= 0x7f80_0000),
{
    Real32::from_bits(LENGTH_FLOOR_32).is_below(length)
}

/// No vector is dropped, added, cut or moved: where vectors of one length are stacked, there
/// are as many rows as vectors, and each row is the vector in its place.
pub proof fn lemma_every_vector_is_a_row(
    vectors: Vec<Vec<Real32>>,
    d: nat,
    r: Result<Matrix, CentroidError>,
)
    requires
        call_ensures(stack_vectors, (&vectors,), r),
        vectors@.len() > 0,
        d > 0,
        forall|k: int| 0 <= k < vectors@.len() ==> (#[trigger] vectors@[k])@.len() == d,
        vectors@.len() * d <= isize::MAX,
    ensures
        r is Ok,
        r->Ok_0.n_rows == vectors@.len(),
        r->Ok_0.n_cols == d,
        forall|i: int| 0 <= i < vectors@.len() ==> #[trigger] r->Ok_0.row(i) == vectors@[i]@,
{
    assert(vectors@[0]@.len() == d);
}

/// Joining is done vector by vector: nothing for no vectors, and for two lists what each
/// gives by itself, one behind the other.
pub proof fn lemma_lists_join_one_behind_the_other(a: Seq<Vec<Real32>>, b: Seq<Vec<Real32>>)
    ensures
        joined(Seq::<Vec<Real32>>::empty()) == Seq::<Real32>::empty(),
        joined(a + b) == joined(a) + joined(b),
        a.len() == 1 ==> joined(a) == a[0]@,
    decreases b.len(),
{
    if b.len() == 0 {
        assert(a + b =~= a);
        assert(joined(a + b) =~= joined(a) + joined(b));
    } else {
        lemma_lists_join_one_behind_the_other(a, b.drop_last());
        assert((a + b).drop_last() =~= a + b.drop_last());
        assert((a + b).last() == b.last());
        assert(joined(a + b) =~= joined(a) + joined(b));
    }
    if a.len() == 1 {
        assert(a.drop_last() =~= Seq::empty());
        assert(joined(a.drop_last()) =~= Seq::empty());
        assert(a.last() == a[0]);
        assert(joined(a) =~= a[0]@);
    }
}

/// What is stacked is all that was given, with the length of the first vector: the
/// description of a stack says no less and no more.
pub proof fn lemma_stack_holds_all_vectors(vectors: Seq<Vec<Real32>>)
    ensures
        vectors.len() == 0 ==> stacked(vectors) == Err::<Stack, CentroidError>(
            CentroidError::Empty,
        ),
        stacked(vectors) matches Ok(s) ==> {
            &&& s.n_rows == vectors.len()
            &&& s.n_cols == vectors[0]@.len()
            &&& s.data == joined(vectors)
        },
        vectors.len() > 0 && vectors[0]@.len() > 0 && vectors.len() * vectors[0]@.len()
            <= isize::MAX ==> (stacked(vectors) is Ok <==> joined(vectors).len() == vectors.len()
            * vectors[0]@.len()),
{
}

} // verus!
