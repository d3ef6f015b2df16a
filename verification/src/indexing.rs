//! Indexing the images that are not in the table yet, in chunks.

use vstd::prelude::*;

use crate::blob::{
    decoded, encode_embedding, encoded, lemma_decode_reverses_encode, ByteOrder,
};
use crate::ieee::Real32;
use crate::matrix::{row_added, row_of, VectorLoader};
use crate::paths::NamedImage;

verus! {

/// Whether a name is among those in the table.
pub open spec fn is_indexed(existing: Seq<String>, name: Seq<char>) -> bool {
    exists|k: int| 0 <= k < existing.len() && (#[trigger] existing[k])@ == name
}

fn contains_name(existing: &Vec<String>, name: &String) -> (b: bool)
    ensures
        b == is_indexed(existing@, name@),
{
    let mut k: usize = 0;
    while k < existing.len()
        invariant
            k <= existing@.len(),
            forall|j: int| 0 <= j < k ==> (#[trigger] existing@[j])@ != name@,
        decreases existing@.len() - k,
    {
        if existing[k] == *name {
            assert(existing@[k as int]@ == name@);
            return true;
        }
        k = k + 1;
    }
    false
}

/// The images that are not in the table yet, in their order.
pub fn unindexed(images: &Vec<NamedImage>, existing: &Vec<String>) -> (rest: Vec<NamedImage>)
    ensures
        rest@ == images@.filter(|n: NamedImage| !is_indexed(existing@, n.name@)),
        forall|i: int|
            0 <= i < images@.len() && (forall|k: int|
                0 <= k < existing@.len() ==> (#[trigger] existing@[k])@ != images@[i].name@)
                ==> rest@.contains(#[trigger] images@[i]),
        forall|i: int, k: int|
            0 <= i < rest@.len() && 0 <= k < existing@.len() ==> (#[trigger] existing@[k])@ != (
            #[trigger] rest@[i]).name@,
        forall|i: int| 0 <= i < rest@.len() ==> images@.contains(#[trigger] rest@[i]),
{
    let ghost missing = |n: NamedImage| !is_indexed(existing@, n.name@);
    let mut rest: Vec<NamedImage> = Vec::new();
    let mut i: usize = 0;
    assert(images@.take(0).filter(missing) =~= Seq::<NamedImage>::empty()) by {
        reveal(Seq::filter);
    }
    while i < images.len()
        invariant
            i <= images@.len(),
            missing == (|n: NamedImage| !is_indexed(existing@, n.name@)),
            rest@ == images@.take(i as int).filter(missing),
        decreases images@.len() - i,
    {
        assert(images@.take(i + 1).drop_last() =~= images@.take(i as int));
        proof {
            reveal(Seq::filter);
        }
        let image: &NamedImage = &images[i];
        if !contains_name(existing, &image.name) {
            rest.push(NamedImage { path: image.path.clone(), name: image.name.clone() });
        }
        i = i + 1;
    }
    assert(images@.take(images@.len() as int) =~= images@);
    proof {
        lemma_left_over_is_what_the_table_lacks(images@, existing@, rest@);
    }
    rest
}

/// No image is indexed twice and none is forgotten: what is left over are images that
/// the table lacks, and every image that it lacks is left over. Once the table has them
/// all, nothing is.
pub proof fn lemma_left_over_is_what_the_table_lacks(
    images: Seq<NamedImage>,
    existing: Seq<String>,
    rest: Seq<NamedImage>,
)
    requires
        rest == images.filter(|n: NamedImage| !is_indexed(existing, n.name@)),
    ensures
        forall|i: int|
            0 <= i < rest.len() ==> images.contains(#[trigger] rest[i]) && !is_indexed(
                existing,
                rest[i].name@,
            ),
        forall|i: int|
            0 <= i < images.len() && !is_indexed(existing, (#[trigger] images[i]).name@)
                ==> rest.contains(images[i]),
        (forall|i: int| 0 <= i < images.len() ==> is_indexed(existing, (#[trigger] images[i]).name@))
            ==> rest.len() == 0,
{
    let missing = |n: NamedImage| !is_indexed(existing, n.name@);
    assert forall|i: int| 0 <= i < rest.len() implies images.contains(#[trigger] rest[i])
        && !is_indexed(existing, rest[i].name@) by {
        images.lemma_filter_pred(missing, i);
        images.lemma_filter_contains_rev(missing, rest[i]);
        assert(missing(rest[i]));
    }
    assert forall|i: int|
        0 <= i < images.len() && !is_indexed(
            existing,
            (#[trigger] images[i]).name@,
        ) implies rest.contains(images[i]) by {
        assert(missing(images[i]));
        images.lemma_filter_contains(missing, i);
    }
    if rest.len() > 0 {
        assert(images.contains(rest[0]));
    }
}

/// Where a chunk that starts at `start` ends.
pub open spec fn chunk_end(start: int, chunk: int, total: int) -> int {
    if total - start <= chunk {
        total
    } else {
        start + chunk
    }
}

/// What to do next.
#[derive(Clone, Copy, PartialEq, Eq, Structural, Debug)]
pub enum IndexStep {
    /// Embed and store the images from `start` to before `end`.
    Chunk { start: usize, end: usize },
    /// Leave the loop.
    Stop,
}

/// What to do once the loop is left.
#[derive(Clone, Copy, PartialEq, Eq, Structural, Debug)]
pub struct AfterIndexing {
    /// Push the table to the remote database.
    pub push: bool,
    /// Go on to cluster.
    pub proceed: bool,
}

/// A run over `total` images, `chunk` of them at a time.
pub struct IndexRun {
    pub total: usize,
    pub chunk: usize,
    /// How many images are done.
    pub done: usize,
}

impl IndexRun {
    pub open spec fn wf(self) -> bool {
        &&& self.done <= self.total
        &&& self.total > 0 ==> self.chunk > 0
    }

    /// A run at its start. Where there is something to index, a chunk has to hold
    /// something.
    pub fn new(total: usize, chunk: usize) -> (run: IndexRun)
        requires
            total > 0 ==> chunk > 0,
        ensures
            run.wf(),
            run.total == total,
            run.chunk == chunk,
            run.done == 0,
    {
        IndexRun { total, chunk, done: 0 }
    }

    /// The next chunk, unless all is done or the run was cancelled.
    pub fn step(&self, cancelled: bool) -> (step: IndexStep)
        requires
            self.wf(),
        ensures
            step == (if self.done < self.total && !cancelled {
                IndexStep::Chunk {
                    start: self.done,
                    end: chunk_end(self.done as int, self.chunk as int, self.total as int) as usize,
                }
            } else {
                IndexStep::Stop
            }),
            step matches IndexStep::Chunk { start, end } ==> start < end <= self.total && end - start
                <= self.chunk,
            step matches IndexStep::Chunk { start, end } ==> start == self.done && (end == self.total
                || end - start == self.chunk),
            step is Stop <==> self.done == self.total || cancelled,
    {
        if self.done < self.total && !cancelled {
            let end: usize = if self.total - self.done <= self.chunk {
                self.total
            } else {
                self.done + self.chunk
            };
            IndexStep::Chunk { start: self.done, end }
        } else {
            IndexStep::Stop
        }
    }

    /// Takes note that the chunk up to `end` is stored.
    pub fn chunk_done(&mut self, end: usize)
        requires
            old(self).wf(),
            old(self).done < end <= old(self).total,
        ensures
            final(self).wf(),
            final(self).total == old(self).total,
            final(self).chunk == old(self).chunk,
            final(self).done == end,
    {
        self.done = end;
    }

    /// What to do once the loop is left: push what was stored, if anything was, and
    /// cluster unless the run was cancelled.
    pub fn after(&self, cancelled: bool) -> (next: AfterIndexing)
        requires
            self.wf(),
        ensures
            next.push == (self.done > 0),
            next.proceed == !cancelled,
    {
        AfterIndexing { push: self.done > 0, proceed: !cancelled }
    }
}

/// The chunks from `start` on, put together again.
pub open spec fn rejoined<T>(items: Seq<T>, start: int, chunk: int) -> Seq<T>
    decreases items.len() - start,
{
    if start < 0 || start >= items.len() || chunk <= 0 {
        Seq::empty()
    } else {
        let end = chunk_end(start, chunk, items.len() as int);
        items.subrange(start, end) + rejoined(items, end, chunk)
    }
}

/// A run that is not cancelled takes every image once, in order.
pub proof fn lemma_chunks_cover_all<T>(items: Seq<T>, chunk: int)
    requires
        chunk > 0,
    ensures
        rejoined(items, 0, chunk) == items,
{
    lemma_chunks_cover_rest(items, 0, chunk);
    assert(items.subrange(0, items.len() as int) =~= items);
}

proof fn lemma_chunks_cover_rest<T>(items: Seq<T>, start: int, chunk: int)
    requires
        chunk > 0,
        0 <= start <= items.len(),
    ensures
        rejoined(items, start, chunk) == items.subrange(start, items.len() as int),
    decreases items.len() - start,
{
    if start < items.len() {
        let end = chunk_end(start, chunk, items.len() as int);
        lemma_chunks_cover_rest(items, end, chunk);
    }
    assert(rejoined(items, start, chunk) =~= items.subrange(start, items.len() as int));
}

/// The bytes to store for image `i` of a chunk, of whose embeddings `values` holds `dim`
/// numbers each, one after another.
pub fn embedding_blob(values: &[Real32], i: usize, dim: usize, order: ByteOrder) -> (bytes: Vec<u8>)
    requires
        i * dim + dim <= values@.len(),
    ensures
        bytes@ == encoded(row_of(values@, dim as int, i as int), order),
        bytes@ == encoded(values@.subrange(i * dim, i * dim + dim), order),
{
    let len: usize = values.len();
    assert(0 <= i * dim) by (nonlinear_arith)
        requires
            0 <= i,
            0 <= dim,
    ;
    let start: usize = i * dim;
    let end: usize = start + dim;
    encode_embedding(vstd::slice::slice_subrange(values, start, end), order)
}

/// The numbers of stored rows, one row after another.
pub open spec fn loaded(blobs: Seq<Seq<u8>>, order: ByteOrder) -> Seq<Real32>
    decreases blobs.len(),
{
    if blobs.len() == 0 {
        Seq::empty()
    } else {
        loaded(blobs.drop_last(), order) + decoded(blobs.last(), order)
    }
}

/// The rows that are stored for the embeddings of `n` images.
pub open spec fn stored(values: Seq<Real32>, n: nat, dim: int, order: ByteOrder) -> Seq<Seq<u8>> {
    Seq::new(n, |i: int| encoded(row_of(values, dim, i), order))
}

/// What was indexed is loaded back: every stored row has the right length, and together
/// they hold the embeddings that were stored.
pub proof fn lemma_stored_rows_load_back(values: Seq<Real32>, n: nat, dim: nat, order: ByteOrder)
    requires
        values.len() == n * dim,
    ensures
        forall|i: int|
            0 <= i < n ==> (#[trigger] stored(values, n, dim as int, order)[i]).len() / 4 == dim,
        loaded(stored(values, n, dim as int, order), order) == values,
{
    let rows = stored(values, n, dim as int, order);
    assert forall|i: int| 0 <= i < n implies (#[trigger] rows[i]).len() / 4 == dim by {
        lemma_row_in(n as int, dim as int, i);
    }
    lemma_rows_join(values, n, dim, order);
}

/// Taking in rows one after another loads them: `loaders` are the loader before the first
/// row, after the first row, and so on.
pub proof fn lemma_rows_taken_in_are_loaded(
    loaders: Seq<VectorLoader>,
    names: Seq<String>,
    blobs: Seq<Seq<u8>>,
    order: ByteOrder,
)
    requires
        loaders.len() == blobs.len() + 1,
        names.len() == blobs.len(),
        loaders[0].filenames@.len() == 0,
        loaders[0].flat@.len() == 0,
        forall|i: int|
            0 <= i < blobs.len() ==> row_added(
                loaders[i],
                names[i],
                #[trigger] blobs[i],
                order,
                loaders[i + 1],
            ),
    ensures
        loaders.last().flat@ == loaded(blobs, order),
        loaders.last().filenames@ == names,
    decreases blobs.len(),
{
    if blobs.len() == 0 {
        assert(loaders.last().flat@ =~= loaded(blobs, order));
        assert(loaders.last().filenames@ =~= names);
    } else {
        let last = blobs.len() - 1;
        assert forall|i: int| 0 <= i < last implies row_added(
            loaders.drop_last()[i],
            names.drop_last()[i],
            #[trigger] blobs.drop_last()[i],
            order,
            loaders.drop_last()[i + 1],
        ) by {
            assert(row_added(loaders[i], names[i], blobs[i], order, loaders[i + 1]));
        }
        lemma_rows_taken_in_are_loaded(
            loaders.drop_last(),
            names.drop_last(),
            blobs.drop_last(),
            order,
        );
        assert(row_added(loaders[last], names[last], blobs[last], order, loaders[last + 1]));
        assert(names.drop_last().push(names[last]) =~= names);
    }
}

/// What was indexed is what a loader holds in the end: it accepts the rows that were stored
/// for the embeddings of `names`, and has then exactly those embeddings, under those names.
pub proof fn lemma_indexed_images_load_back(
    values: Seq<Real32>,
    names: Seq<String>,
    dim: nat,
    order: ByteOrder,
    loaders: Seq<VectorLoader>,
)
    requires
        values.len() == names.len() * dim,
        loaders.len() == names.len() + 1,
        loaders[0].filenames@.len() == 0,
        loaders[0].flat@.len() == 0,
        forall|i: int|
            0 <= i < names.len() ==> row_added(
                loaders[i],
                #[trigger] names[i],
                stored(values, names.len(), dim as int, order)[i],
                order,
                loaders[i + 1],
            ),
    ensures
        forall|i: int|
            0 <= i < names.len() ==> (#[trigger] stored(values, names.len(), dim as int, order)[i]).len()
                / 4 == dim,
        loaders.last().flat@ == values,
        loaders.last().filenames@ == names,
{
    let blobs = stored(values, names.len(), dim as int, order);
    assert forall|i: int| 0 <= i < blobs.len() implies row_added(
        loaders[i],
        names[i],
        #[trigger] blobs[i],
        order,
        loaders[i + 1],
    ) by {
        assert(row_added(loaders[i], names[i], blobs[i], order, loaders[i + 1]));
    }
    lemma_stored_rows_load_back(values, names.len(), dim, order);
    lemma_rows_taken_in_are_loaded(loaders, names, blobs, order);
}

/// The rows before row `last` are the rows of what stands before it.
proof fn lemma_rows_before(values: Seq<Real32>, last: nat, dim: nat, order: ByteOrder)
    requires
        values.len() == (last + 1) * dim,
    ensures
        values.take((last * dim) as int).len() == last * dim,
        stored(values, last + 1, dim as int, order).drop_last() == stored(
            values.take((last * dim) as int),
            last,
            dim as int,
            order,
        ),
        values.take((last * dim) as int) + row_of(values, dim as int, last as int) == values,
{
    let shorter = values.take((last * dim) as int);
    lemma_row_in((last + 1) as int, dim as int, last as int);
    assert forall|i: int| 0 <= i < last implies #[trigger] row_of(values, dim as int, i) == row_of(
        shorter,
        dim as int,
        i,
    ) by {
        lemma_row_in(last as int, dim as int, i);
        assert(row_of(values, dim as int, i) =~= row_of(shorter, dim as int, i));
    }
    assert(stored(values, last + 1, dim as int, order).drop_last() =~= stored(
        shorter,
        last,
        dim as int,
        order,
    ));
    assert(shorter + row_of(values, dim as int, last as int) =~= values);
}

proof fn lemma_rows_join(values: Seq<Real32>, n: nat, dim: nat, order: ByteOrder)
    requires
        values.len() == n * dim,
    ensures
        loaded(stored(values, n, dim as int, order), order) == values,
    decreases n,
{
    if n == 0 {
        assert(n * dim == 0) by (nonlinear_arith)
            requires
                n == 0,
        ;
        assert(values =~= Seq::empty());
    } else {
        let last = (n - 1) as nat;
        lemma_rows_before(values, last, dim, order);
        lemma_rows_join(values.take((last * dim) as int), last, dim, order);
        lemma_decode_reverses_encode(row_of(values, dim as int, last as int), order);
        assert(stored(values, n, dim as int, order).last() == encoded(
            row_of(values, dim as int, last as int),
            order,
        ));
    }
}

proof fn lemma_row_in(n: int, dim: int, i: int)
    requires
        0 <= i < n,
        0 <= dim,
    ensures
        0 <= i * dim,
        i * dim + dim <= n * dim,
        i == n - 1 ==> i * dim + dim == n * dim,
{
    assert(0 <= i * dim && i * dim + dim <= n * dim && (i == n - 1 ==> i * dim + dim == n * dim))
        by (nonlinear_arith)
        requires
            0 <= i < n,
            0 <= dim,
    ;
}

/// An image is left over to be indexed exactly if its name is none of those in the table,
/// whole name against whole name, and those left over keep their order.
pub proof fn lemma_names_are_compared_whole(
    images: Vec<NamedImage>,
    existing: Vec<String>,
    rest: Vec<NamedImage>,
    i: int,
)
    requires
        call_ensures(unindexed, (&images, &existing), rest),
        0 <= i < images@.len(),
    ensures
        (forall|k: int| 0 <= k < existing@.len() ==> (#[trigger] existing@[k])@ != images@[i].name@)
            ==> rest@.contains(images@[i]),
        (exists|k: int| 0 <= k < existing@.len() && (#[trigger] existing@[k])@ == images@[i].name@)
            ==> !rest@.contains(images@[i]),
        rest@.len() <= images@.len(),
{
    assert(rest@ == images@.filter(|n: NamedImage| !is_indexed(existing@, n.name@)));
    images@.lemma_filter_len(|n: NamedImage| !is_indexed(existing@, n.name@));
    if exists|k: int| 0 <= k < existing@.len() && (#[trigger] existing@[k])@ == images@[i].name@ {
        let k = choose|k: int| 0 <= k < existing@.len() && (#[trigger] existing@[k])@ == images@[i].name@;
        if rest@.contains(images@[i]) {
            let p = choose|p: int| 0 <= p < rest@.len() && rest@[p] == images@[i];
            assert(existing@[k]@ != rest@[p].name@);
        }
    }
}

/// With more names in the table, fewer images are left over: whatever is left over against
/// the longer list is left over against the shorter one.
pub proof fn lemma_more_names_leave_fewer_images(
    images: Vec<NamedImage>,
    fewer: Vec<String>,
    more: Vec<String>,
    rest_fewer: Vec<NamedImage>,
    rest_more: Vec<NamedImage>,
    i: int,
)
    requires
        call_ensures(unindexed, (&images, &fewer), rest_fewer),
        call_ensures(unindexed, (&images, &more), rest_more),
        forall|k: int| 0 <= k < fewer@.len() ==> more@.contains(#[trigger] fewer@[k]),
        0 <= i < rest_more@.len(),
    ensures
        rest_fewer@.contains(rest_more@[i]),
{
    let image = rest_more@[i];
    assert(images@.contains(image));
    let p = choose|p: int| 0 <= p < images@.len() && images@[p] == image;
    assert forall|k: int| 0 <= k < fewer@.len() implies (#[trigger] fewer@[k])@ != images@[p].name@ by {
        assert(more@.contains(fewer@[k]));
        let q = choose|q: int| 0 <= q < more@.len() && more@[q] == fewer@[k];
        assert(more@[q]@ != rest_more@[i].name@);
    }
}

/// Every chunk but the last is as long as was asked for.
pub proof fn lemma_chunks_are_full(run: IndexRun, step: IndexStep)
    requires
        run.wf(),
        call_ensures(IndexRun::step, (&run, false), step),
        run.done < run.total,
    ensures
        step is Chunk,
        step->start == run.done,
        step->end - step->start == run.chunk || step->end == run.total,
        step->end - step->start <= run.chunk,
{
}

} // verus!
