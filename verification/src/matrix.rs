//! Samples as rows of numbers.

use vstd::prelude::*;

use crate::blob::{decode_embedding, decoded, ByteOrder};
use crate::ieee::{Real32, MAX_32, MIN_32};
use crate::text::{decimal, decimal_text};

verus! {

/// Numbers in rows of equal length, one row after another.
pub struct Matrix {
    pub n_rows: usize,
    pub n_cols: usize,
    pub data: Vec<Real32>,
}

/// Row `i` of numbers that stand in rows of `n_cols`.
pub open spec fn row_of(data: Seq<Real32>, n_cols: int, i: int) -> Seq<Real32> {
    data.subrange(i * n_cols, i * n_cols + n_cols)
}

proof fn lemma_row_fits(n_rows: int, n_cols: int, i: int)
    requires
        0 <= i < n_rows,
        0 <= n_cols,
    ensures
        0 <= i * n_cols,
        i * n_cols + n_cols <= n_rows * n_cols,
        (i + 1) * n_cols == i * n_cols + n_cols,
{
    assert(0 <= i * n_cols && i * n_cols + n_cols <= n_rows * n_cols && (i + 1) * n_cols == i * n_cols
        + n_cols) by (nonlinear_arith)
        requires
            0 <= i < n_rows,
            0 <= n_cols,
    ;
}

/// Appending a whole row keeps the rows before it.
proof fn lemma_append_row(data: Seq<Real32>, n_rows: int, n_cols: int, row: Seq<Real32>)
    requires
        0 <= n_rows,
        0 <= n_cols,
        data.len() == n_rows * n_cols,
        row.len() == n_cols,
    ensures
        (data + row).len() == (n_rows + 1) * n_cols,
        row_of(data + row, n_cols, n_rows) == row,
        forall|i: int|
            0 <= i < n_rows ==> #[trigger] row_of(data + row, n_cols, i) == row_of(data, n_cols, i),
{
    lemma_row_fits(n_rows + 1, n_cols, n_rows);
    assert(row_of(data + row, n_cols, n_rows) =~= row);
    assert forall|i: int| 0 <= i < n_rows implies #[trigger] row_of(data + row, n_cols, i) == row_of(
        data,
        n_cols,
        i,
    ) by {
        lemma_row_fits(n_rows, n_cols, i);
        assert(row_of(data + row, n_cols, i) =~= row_of(data, n_cols, i));
    }
}

/// Why numbers do not fit a shape.
#[derive(Clone, Copy, PartialEq, Eq, Structural, Debug)]
pub enum ShapeFault {
    /// The shape is too large.
    Overflow,
    /// There are too few numbers.
    OutOfBounds,
    /// There are too many numbers.
    IncompatibleShape,
}

impl ShapeFault {
    pub open spec fn text(self) -> Seq<char> {
        match self {
            ShapeFault::Overflow => "ShapeError/Overflow: arithmetic overflow"@,
            ShapeFault::OutOfBounds => "ShapeError/OutOfBounds: out of bounds indexing"@,
            ShapeFault::IncompatibleShape =>
                "ShapeError/IncompatibleShape: incompatible shapes"@,
        }
    }

    pub fn message(&self) -> (s: &'static str)
        ensures
            s@ == self.text(),
            *self == ShapeFault::Overflow ==> s@ == "ShapeError/Overflow: arithmetic overflow"@,
            *self == ShapeFault::OutOfBounds ==> s@
                == "ShapeError/OutOfBounds: out of bounds indexing"@,
            *self == ShapeFault::IncompatibleShape ==> s@
                == "ShapeError/IncompatibleShape: incompatible shapes"@,
    {
        match self {
            ShapeFault::Overflow => "ShapeError/Overflow: arithmetic overflow",
            ShapeFault::OutOfBounds => "ShapeError/OutOfBounds: out of bounds indexing",
            ShapeFault::IncompatibleShape => "ShapeError/IncompatibleShape: incompatible shapes",
        }
    }
}

/// What is wrong with `len` numbers for a shape, if anything is.
pub open spec fn shape_fault(n_rows: int, n_cols: int, len: int) -> Option<ShapeFault> {
    let rows = if n_rows == 0 {
        1
    } else {
        n_rows
    };
    let cols = if n_cols == 0 {
        1
    } else {
        n_cols
    };
    if rows * cols > isize::MAX {
        Some(ShapeFault::Overflow)
    } else if n_rows * n_cols > len {
        Some(ShapeFault::OutOfBounds)
    } else if n_rows * n_cols < len {
        Some(ShapeFault::IncompatibleShape)
    } else {
        None
    }
}

impl Matrix {
    pub open spec fn wf(self) -> bool {
        self.data@.len() == self.n_rows * self.n_cols
    }

    pub open spec fn row(self, i: int) -> Seq<Real32> {
        row_of(self.data@, self.n_cols as int, i)
    }

    /// Column `j`, from the first row down.
    pub open spec fn column(self, j: int) -> Seq<Real32> {
        Seq::new(self.n_rows as nat, |i: int| self.row(i)[j])
    }

    /// The matrix of this shape with these numbers, unless their count does not fit the
    /// shape.
    pub fn from_shape_vec(n_rows: usize, n_cols: usize, data: Vec<Real32>) -> (m: Result<
        Matrix,
        ShapeFault,
    >)
        ensures
            match shape_fault(n_rows as int, n_cols as int, data@.len() as int) {
                None => m is Ok && m->Ok_0.wf() && m->Ok_0.n_rows == n_rows && m->Ok_0.n_cols
                    == n_cols && m->Ok_0.data@ == data@,
                Some(fault) => m == Err::<Matrix, ShapeFault>(fault),
            },
            n_rows > 0 && n_cols > 0 && n_rows * n_cols <= isize::MAX && data@.len() == n_rows
                * n_cols ==> m is Ok,
            (n_rows == 0 || n_cols == 0) && n_rows <= isize::MAX && n_cols <= isize::MAX
                && data@.len() == 0 ==> m is Ok,
            m matches Ok(x) ==> x.n_rows == n_rows && x.n_cols == n_cols && x.data@ == data@
                && data@.len() == n_rows * n_cols,
            n_rows > 0 && n_cols > 0 && n_rows * n_cols > isize::MAX ==> m == Err::<
                Matrix,
                ShapeFault,
            >(ShapeFault::Overflow),
            n_rows > 0 && n_cols > 0 && n_rows * n_cols <= isize::MAX && data@.len() < n_rows
                * n_cols ==> m == Err::<Matrix, ShapeFault>(ShapeFault::OutOfBounds),
            n_rows > 0 && n_cols > 0 && n_rows * n_cols <= isize::MAX && data@.len() > n_rows
                * n_cols ==> m == Err::<Matrix, ShapeFault>(ShapeFault::IncompatibleShape),
    {
        let len: usize = data.len();
        let rows: usize = if n_rows == 0 {
            1
        } else {
            n_rows
        };
        let cols: usize = if n_cols == 0 {
            1
        } else {
            n_cols
        };
        proof {
            assert(n_rows == 0 ==> n_rows * n_cols == 0) by (nonlinear_arith);
            assert(n_cols == 0 ==> n_rows * n_cols == 0) by (nonlinear_arith);
            assert(n_rows == 0 ==> 1 * cols == cols) by (nonlinear_arith);
            assert(n_cols == 0 ==> rows * 1 == rows) by (nonlinear_arith);
        }
        match rows.checked_mul(cols) {
            None => Err(ShapeFault::Overflow),
            Some(size) => {
                if size > isize::MAX as usize {
                    return Err(ShapeFault::Overflow);
                }
                let n: usize = if n_rows == 0 || n_cols == 0 {
                    0
                } else {
                    size
                };
                if n > len {
                    Err(ShapeFault::OutOfBounds)
                } else if n < len {
                    Err(ShapeFault::IncompatibleShape)
                } else {
                    Ok(Matrix { n_rows, n_cols, data })
                }
            },
        }
    }

    /// The number at row `i` and column `j`.
    pub fn at(&self, i: usize, j: usize) -> (x: Real32)
        requires
            self.wf(),
            i < self.n_rows,
            j < self.n_cols,
        ensures
            x == self.row(i as int)[j as int],
            x == self.data@[i * self.n_cols + j],
    {
        let len: usize = self.data.len();
        proof {
            lemma_row_fits(self.n_rows as int, self.n_cols as int, i as int);
            assert(i * self.n_cols + j < len);
        }
        self.data[i * self.n_cols + j]
    }

    /// The rows at `indices`, in that order.
    pub fn select_rows(&self, indices: &Vec<usize>) -> (m: Matrix)
        requires
            self.wf(),
            forall|k: int| 0 <= k < indices@.len() ==> #[trigger] indices@[k] < self.n_rows,
        ensures
            m.wf(),
            m.n_rows == indices@.len(),
            m.n_cols == self.n_cols,
            forall|k: int| 0 <= k < indices@.len() ==> #[trigger] m.row(k) == self.row(indices@[k] as int),
    {
        let mut data: Vec<Real32> = Vec::new();
        let mut k: usize = 0;
        let ghost cols = self.n_cols as int;
        while k < indices.len()
            invariant
                self.wf(),
                cols == self.n_cols,
                k <= indices@.len(),
                forall|k: int| 0 <= k < indices@.len() ==> #[trigger] indices@[k] < self.n_rows,
                data@.len() == k * cols,
                forall|a: int| 0 <= a < k ==> #[trigger] row_of(data@, cols, a) == self.row(indices@[a] as int),
            decreases indices@.len() - k,
        {
            let i: usize = indices[k];
            let ghost before = data@;
            let ghost wanted = self.row(i as int);
            proof {
                lemma_row_fits(self.n_rows as int, cols, i as int);
            }
            let mut j: usize = 0;
            while j < self.n_cols
                invariant
                    self.wf(),
                    cols == self.n_cols,
                    i < self.n_rows,
                    j <= self.n_cols,
                    wanted == self.row(i as int),
                    wanted.len() == cols,
                    data@ == before + wanted.take(j as int),
                decreases self.n_cols - j,
            {
                data.push(self.at(i, j));
                assert(data@ =~= before + wanted.take(j + 1));
                j = j + 1;
            }
            proof {
                assert(wanted.take(cols) =~= wanted);
                lemma_append_row(before, k as int, cols, wanted);
            }
            k = k + 1;
        }
        Matrix { n_rows: indices.len(), n_cols: self.n_cols, data }
    }

    /// The least number of column `j`, or the largest finite number where that is less.
    /// What is not a number is passed over.
    pub fn column_min(&self, j: usize) -> (least: Real32)
        requires
            self.wf(),
            j < self.n_cols,
        ensures
            is_least(self.column(j as int), least),
            !least.nan(),
            forall|i: int|
                0 <= i < self.n_rows && !(#[trigger] self.row(i))[j as int].nan() ==> least.key()
                    <= self.row(i)[j as int].key(),
            least.bits == 0x7f7f_ffff || exists|i: int|
                0 <= i < self.n_rows && (#[trigger] self.row(i))[j as int] == least,
    {
        let mut least: Real32 = Real32::from_bits(MAX_32);
        let ghost column = self.column(j as int);
        let mut i: usize = 0;
        while i < self.n_rows
            invariant
                self.wf(),
                j < self.n_cols,
                i <= self.n_rows,
                column == self.column(j as int),
                is_least(column.take(i as int), least),
            decreases self.n_rows - i,
        {
            let x = self.at(i, j);
            let ghost earlier = least;
            assert(column.take(i + 1).drop_last() =~= column.take(i as int));
            assert(column.take(i + 1).last() == x);
            if x.is_below(least) {
                least = x;
            }
            proof {
                lemma_least_step(column.take(i + 1), earlier, least);
            }
            i = i + 1;
        }
        assert(column.take(self.n_rows as int) =~= column);
        proof {
            assert forall|i: int|
                0 <= i < self.n_rows && !(#[trigger] self.row(i))[j as int].nan() implies least.key()
                <= self.row(i)[j as int].key() by {
                assert(!column[i].below(least));
            }
            if least.bits != MAX_32 {
                let i = choose|i: int| 0 <= i < column.len() && column[i] == least;
                assert(self.row(i)[j as int] == least);
            }
        }
        least
    }

    /// The greatest number of column `j`, or the least finite number where that is
    /// greater. What is not a number is passed over.
    pub fn column_max(&self, j: usize) -> (greatest: Real32)
        requires
            self.wf(),
            j < self.n_cols,
        ensures
            is_greatest(self.column(j as int), greatest),
            !greatest.nan(),
            forall|i: int|
                0 <= i < self.n_rows && !(#[trigger] self.row(i))[j as int].nan() ==> self.row(
                    i,
                )[j as int].key() <= greatest.key(),
            greatest.bits == 0xff7f_ffff || exists|i: int|
                0 <= i < self.n_rows && (#[trigger] self.row(i))[j as int] == greatest,
    {
        let mut greatest: Real32 = Real32::from_bits(MIN_32);
        let ghost column = self.column(j as int);
        let mut i: usize = 0;
        while i < self.n_rows
            invariant
                self.wf(),
                j < self.n_cols,
                i <= self.n_rows,
                column == self.column(j as int),
                is_greatest(column.take(i as int), greatest),
            decreases self.n_rows - i,
        {
            let x = self.at(i, j);
            let ghost earlier = greatest;
            assert(column.take(i + 1).drop_last() =~= column.take(i as int));
            assert(column.take(i + 1).last() == x);
            if greatest.is_below(x) {
                greatest = x;
            }
            proof {
                lemma_greatest_step(column.take(i + 1), earlier, greatest);
            }
            i = i + 1;
        }
        assert(column.take(self.n_rows as int) =~= column);
        proof {
            assert forall|i: int|
                0 <= i < self.n_rows && !(#[trigger] self.row(i))[j as int].nan() implies self.row(
                i,
            )[j as int].key() <= greatest.key() by {
                assert(!greatest.below(column[i]));
            }
            if greatest.bits != MIN_32 {
                let i = choose|i: int| 0 <= i < column.len() && column[i] == greatest;
                assert(self.row(i)[j as int] == greatest);
            }
        }
        greatest
    }
}

/// `least` is the largest finite number or one of `column`, and none of them is below it.
pub open spec fn is_least(column: Seq<Real32>, least: Real32) -> bool {
    &&& !least.nan()
    &&& least.bits == MAX_32 || column.contains(least)
    &&& least.key() <= (Real32 { bits: MAX_32 }).key()
    &&& forall|i: int| 0 <= i < column.len() ==> !(#[trigger] column[i]).below(least)
}

/// `greatest` is the least finite number or one of `column`, and it is below none of
/// them.
pub open spec fn is_greatest(column: Seq<Real32>, greatest: Real32) -> bool {
    &&& !greatest.nan()
    &&& greatest.bits == MIN_32 || column.contains(greatest)
    &&& greatest.key() >= (Real32 { bits: MIN_32 }).key()
    &&& forall|i: int| 0 <= i < column.len() ==> !greatest.below(#[trigger] column[i])
}

proof fn lemma_least_step(column: Seq<Real32>, earlier: Real32, least: Real32)
    requires
        column.len() > 0,
        is_least(column.drop_last(), earlier),
        least == (if column.last().below(earlier) {
            column.last()
        } else {
            earlier
        }),
    ensures
        is_least(column, least),
{
    assert forall|i: int| 0 <= i < column.len() implies !(#[trigger] column[i]).below(least) by {
        if i < column.len() - 1 {
            assert(column.drop_last()[i] == column[i]);
        }
    }
    if column.last().below(earlier) {
        assert(column[column.len() - 1] == least);
    } else if earlier.bits != MAX_32 {
        let p = choose|p: int| 0 <= p < column.drop_last().len() && column.drop_last()[p] == earlier;
        assert(column[p] == least);
    }
}

proof fn lemma_greatest_step(column: Seq<Real32>, earlier: Real32, greatest: Real32)
    requires
        column.len() > 0,
        is_greatest(column.drop_last(), earlier),
        greatest == (if earlier.below(column.last()) {
            column.last()
        } else {
            earlier
        }),
    ensures
        is_greatest(column, greatest),
{
    assert forall|i: int| 0 <= i < column.len() implies !greatest.below(#[trigger] column[i]) by {
        if i < column.len() - 1 {
            assert(column.drop_last()[i] == column[i]);
        }
    }
    if earlier.below(column.last()) {
        assert(column[column.len() - 1] == greatest);
    } else if earlier.bits != MIN_32 {
        let p = choose|p: int| 0 <= p < column.drop_last().len() && column.drop_last()[p] == earlier;
        assert(column[p] == greatest);
    }
}

/// A stored embedding has another length than the embedder gives.
#[derive(Clone, Copy, PartialEq, Eq, Structural, Debug)]
pub struct DimensionMismatch {
    pub expected: usize,
    pub got: usize,
}

impl DimensionMismatch {
    pub fn message(&self) -> (s: String)
        ensures
            s@ == "Embedding dimension mismatch: expected "@ + decimal(self.expected as nat) + ", got "@
                + decimal(self.got as nat),
    {
        let mut s = String::new();
        s.push_str("Embedding dimension mismatch: expected ");
        s.push_str(decimal_text(self.expected).as_str());
        s.push_str(", got ");
        s.push_str(decimal_text(self.got).as_str());
        s
    }
}

/// What taking in a row does.
pub open spec fn row_added(
    before: VectorLoader,
    filename: String,
    blob: Seq<u8>,
    order: ByteOrder,
    after: VectorLoader,
) -> bool {
    &&& after.dim == before.dim
    &&& after.filenames@ == before.filenames@.push(filename)
    &&& after.flat@ == before.flat@ + decoded(blob, order)
}

/// The rows of the database read so far.
pub struct VectorLoader {
    pub dim: usize,
    pub filenames: Vec<String>,
    pub flat: Vec<Real32>,
}

impl VectorLoader {
    pub open spec fn wf(self) -> bool {
        self.flat@.len() == self.filenames@.len() * self.dim
    }

    pub fn new(dim: usize) -> (l: VectorLoader)
        ensures
            l.wf(),
            l.dim == dim,
            l.filenames@.len() == 0,
            l.flat@.len() == 0,
    {
        VectorLoader { dim, filenames: Vec::new(), flat: Vec::new() }
    }

    /// Takes in a row of the database. A row whose embedding has the wrong length is
    /// refused.
    pub fn add_row(&mut self, filename: String, blob: &[u8], order: ByteOrder) -> (r: Result<
        (),
        DimensionMismatch,
    >)
        requires
            old(self).wf(),
        ensures
            final(self).wf(),
            final(self).dim == old(self).dim,
            r is Ok <==> blob@.len() / 4 == old(self).dim,
            r is Ok ==> row_added(*old(self), filename, blob@, order, *final(self)),
            r is Ok ==> {
                &&& final(self).filenames@ == old(self).filenames@.push(filename)
                &&& final(self).flat@ == old(self).flat@ + decoded(blob@, order)
            },
            r matches Err(e) ==> {
                &&& e.expected == old(self).dim
                &&& e.got == blob@.len() / 4
                &&& *final(self) == *old(self)
            },
    {
        let mut embedding = decode_embedding(blob, order);
        if embedding.len() != self.dim {
            return Err(DimensionMismatch { expected: self.dim, got: embedding.len() });
        }
        proof {
            lemma_append_row(
                self.flat@,
                self.filenames@.len() as int,
                self.dim as int,
                decoded(blob@, order),
            );
        }
        self.filenames.push(filename);
        self.flat.append(&mut embedding);
        Ok(())
    }

    /// The names and the embeddings of all rows, in the order in which they came. Where
    /// there are none, their length may still be more than a matrix can have.
    pub fn finish(self) -> (r: Result<(Vec<String>, Matrix), ShapeFault>)
        requires
            self.wf(),
        ensures
            match shape_fault(
                self.filenames@.len() as int,
                self.dim as int,
                self.flat@.len() as int,
            ) {
                None => {
                    &&& r is Ok
                    &&& (r->Ok_0).0 == self.filenames
                    &&& (r->Ok_0).1.wf()
                    &&& (r->Ok_0).1.n_rows == self.filenames@.len()
                    &&& (r->Ok_0).1.n_cols == self.dim
                    &&& (r->Ok_0).1.data@ == self.flat@
                },
                Some(fault) => {
                    &&& fault == ShapeFault::Overflow
                    &&& r == Err::<(Vec<String>, Matrix), ShapeFault>(fault)
                },
            },
            self.filenames@.len() > 0 && self.dim > 0 && self.filenames@.len() * self.dim
                <= isize::MAX ==> r is Ok,
            self.filenames@.len() == 0 && self.dim <= isize::MAX ==> r is Ok,
            r matches Ok(found) ==> {
                &&& found.0@ == self.filenames@
                &&& found.1.n_rows == self.filenames@.len()
                &&& found.1.n_cols == self.dim
                &&& found.1.data@ == self.flat@
            },
    {
        let n_rows: usize = self.filenames.len();
        proof {
            assert(n_rows == 0 ==> n_rows * self.dim == 0) by (nonlinear_arith);
        }
        match Matrix::from_shape_vec(n_rows, self.dim, self.flat) {
            Ok(m) => Ok((self.filenames, m)),
            Err(fault) => Err(fault),
        }
    }
}

/// As many numbers as a shape has places are accepted, whatever the shape, as long as it
/// fits into the machine; they stand in it row by row.
pub proof fn lemma_numbers_that_fill_a_shape_are_accepted(
    n_rows: usize,
    n_cols: usize,
    data: Vec<Real32>,
    m: Result<Matrix, ShapeFault>,
)
    requires
        call_ensures(Matrix::from_shape_vec, (n_rows, n_cols, data), m),
        n_rows > 0,
        n_cols > 0,
        n_rows * n_cols <= isize::MAX,
        data@.len() == n_rows * n_cols,
    ensures
        m is Ok,
        m->Ok_0.n_rows == n_rows,
        m->Ok_0.n_cols == n_cols,
        forall|i: int, j: int|
            0 <= i < n_rows && 0 <= j < n_cols ==> (#[trigger] m->Ok_0.row(i)[j]) == data@[i * n_cols
                + j],
{
    let x = m->Ok_0;
    assert forall|i: int, j: int| 0 <= i < n_rows && 0 <= j < n_cols implies (#[trigger] x.row(i)[j])
        == data@[i * n_cols + j] by {
        lemma_number_in_its_place(x, i, j);
    }
}

/// Row `i` and column `j` meet at one place among the numbers, and rows are as long as there
/// are columns.
pub proof fn lemma_number_in_its_place(x: Matrix, i: int, j: int)
    requires
        x.wf(),
        0 <= i < x.n_rows,
        0 <= j < x.n_cols,
    ensures
        x.row(i).len() == x.n_cols,
        x.column(j).len() == x.n_rows,
        x.row(i)[j] == x.data@[i * x.n_cols + j],
        x.column(j)[i] == x.data@[i * x.n_cols + j],
{
    lemma_row_fits(x.n_rows as int, x.n_cols as int, i);
}

/// A loader that took in rows gives them back: as many names and rows as were taken in.
pub proof fn lemma_loaded_rows_are_given_back(
    loader: VectorLoader,
    r: Result<(Vec<String>, Matrix), ShapeFault>,
)
    requires
        loader.wf(),
        call_ensures(VectorLoader::finish, (loader,), r),
        loader.filenames@.len() > 0,
        loader.dim > 0,
        loader.filenames@.len() * loader.dim <= isize::MAX,
    ensures
        r is Ok,
        (r->Ok_0).0@ == loader.filenames@,
        (r->Ok_0).1.n_rows == loader.filenames@.len(),
        (r->Ok_0).1.n_cols == loader.dim,
        (r->Ok_0).1.data@ == loader.flat@,
{
}

/// What the least and the greatest of a column are: no number of the column is beyond them,
/// and each is in the column unless it is the limit that it starts from.
pub proof fn lemma_limits_of_a_column(column: Seq<Real32>, least: Real32, greatest: Real32, i: int)
    requires
        is_least(column, least),
        is_greatest(column, greatest),
        0 <= i < column.len(),
        !column[i].nan(),
    ensures
        least.key() <= column[i].key() <= greatest.key(),
        least.bits == 0x7f7f_ffff || column.contains(least),
        greatest.bits == 0xff7f_ffff || column.contains(greatest),
{
    assert(!column[i].below(least));
    assert(!greatest.below(column[i]));
}

} // verus!
