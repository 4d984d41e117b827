//! Chunked columns: an ordered sequence of physical chunks, each a dense
//! value buffer plus an optional validity bitmap of equal length.
//!
//! The view of a column is the flat sequence of its logical rows, a missing
//! row shown as `None`.

use crate::bits::Bitmap;
use vstd::prelude::*;

verus! {

/// The dtypes the kernel layer has strategies for.
#[derive(Clone, Copy, Debug, PartialEq, Eq, Structural)]
pub enum DType {
    Null,
    Boolean,
    UInt64,
    Binary,
    Utf8,
    List,
}

/// The logical value of an optional row.
pub open spec fn opt_view<T: View>(o: Option<T>) -> Option<T::V> {
    match o {
        Some(v) => Some(v@),
        None => None,
    }
}

/// Concatenation of a sequence of sequences, in order.
pub open spec fn concat_seqs<A>(s: Seq<Seq<A>>) -> Seq<A>
    decreases s.len(),
{
    if s.len() == 0 {
        Seq::empty()
    } else {
        s[0] + concat_seqs(s.drop_first())
    }
}

/// Splitting a concatenation at a chunk boundary splits the rows.
pub proof fn lemma_concat_seqs_split<A>(s: Seq<Seq<A>>, c: int)
    requires
        0 <= c <= s.len(),
    ensures
        concat_seqs(s) == concat_seqs(s.subrange(0, c)) + concat_seqs(s.subrange(c, s.len() as int)),
    decreases c,
{
    if c == 0 {
        assert(s.subrange(0, s.len() as int) =~= s);
        assert(concat_seqs(s.subrange(0, 0)) =~= Seq::<A>::empty());
        assert(concat_seqs(s) =~= Seq::<A>::empty() + concat_seqs(s));
    } else {
        let t = s.drop_first();
        lemma_concat_seqs_split(t, c - 1);
        assert(t.subrange(0, c - 1) =~= s.subrange(0, c).drop_first());
        assert(t.subrange(c - 1, t.len() as int) =~= s.subrange(c, s.len() as int));
        assert(s.subrange(0, c)[0] == s[0]);
        assert(concat_seqs(s.subrange(0, c)) == s[0] + concat_seqs(s.subrange(0, c).drop_first()));
        assert(concat_seqs(s) =~= concat_seqs(s.subrange(0, c)) + concat_seqs(
            s.subrange(c, s.len() as int),
        ));
    }
}

/// A concatenation of one sequence is that sequence.
pub proof fn lemma_concat_seqs_singleton<A>(s: Seq<Seq<A>>)
    requires
        s.len() == 1,
    ensures
        concat_seqs(s) == s[0],
{
    assert(s.drop_first().len() == 0);
    assert(concat_seqs(s.drop_first()) =~= Seq::<A>::empty());
    assert(concat_seqs(s) =~= s[0]);
}

/// One contiguous chunk: dense values plus an optional validity mask.
pub struct Chunk<T> {
    values: Vec<T>,
    validity: Option<Bitmap>,
}

impl<T: View> View for Chunk<T> {
    type V = Seq<Option<T::V>>;

    closed spec fn view(&self) -> Seq<Option<T::V>> {
        Seq::new(
            self.values@.len(),
            |i: int|
                match self.validity {
                    Some(vb) => if vb@[i] {
                        Some(self.values@[i]@)
                    } else {
                        None
                    },
                    None => Some(self.values@[i]@),
                },
        )
    }
}

impl<T: View> Chunk<T> {
    /// The validity mask, when present, covers exactly the values.
    pub closed spec fn wf(&self) -> bool {
        match self.validity {
            Some(vb) => vb.wf() && vb@.len() == self.values@.len(),
            None => true,
        }
    }

    /// A fully-present chunk.
    pub fn new_full(values: Vec<T>) -> (r: Chunk<T>)
        ensures
            r.wf(),
            r@.len() == values@.len(),
            forall|i: int| 0 <= i < values@.len() ==> r@[i] == Some(values@[i]@),
    {
        Chunk { values, validity: None }
    }

    /// A chunk with an explicit validity mask.
    pub fn new_masked(values: Vec<T>, validity: Bitmap) -> (r: Chunk<T>)
        requires
            validity.wf(),
            validity@.len() == values@.len(),
        ensures
            r.wf(),
            r@.len() == values@.len(),
            forall|i: int|
                0 <= i < values@.len() ==> r@[i] == if validity@[i] {
                    Some(values@[i]@)
                } else {
                    None::<T::V>
                },
    {
        Chunk { values, validity: Some(validity) }
    }

    /// The number of rows.
    pub fn len(&self) -> (r: usize)
        ensures
            r == self@.len(),
    {
        self.values.len()
    }

    /// The optional value of row `o`.
    pub fn get(&self, o: usize) -> (r: Option<&T>)
        requires
            self.wf(),
            o < self@.len(),
        ensures
            match r {
                Some(v) => self@[o as int] == Some(v@),
                None => self@[o as int] is None,
            },
    {
        match &self.validity {
            Some(vb) => {
                if vb.get(o) {
                    Some(&self.values[o])
                } else {
                    None
                }
            },
            None => Some(&self.values[o]),
        }
    }
}

/// Accumulates one output chunk row by row.
pub struct ChunkBuilder<T> {
    values: Vec<T>,
    bits: Vec<bool>,
    fill: T,
}

impl<T: View + Clone> ChunkBuilder<T> {
    /// Values pushed so far, a missing row shown as `None`.
    pub closed spec fn view(&self) -> Seq<Option<T::V>> {
        Seq::new(
            self.bits@.len(),
            |i: int|
                if self.bits@[i] {
                    Some(self.values@[i]@)
                } else {
                    None
                },
        )
    }

    pub closed spec fn wf(&self) -> bool {
        self.bits@.len() == self.values@.len()
    }

    /// An empty builder; `fill` is the placeholder stored under missing rows.
    pub fn new(fill: T) -> (r: ChunkBuilder<T>)
        ensures
            r.wf(),
            r.view() == Seq::<Option<T::V>>::empty(),
    {
        let r = ChunkBuilder { values: Vec::new(), bits: Vec::new(), fill };
        proof {
            assert(r.view() =~= Seq::<Option<T::V>>::empty());
        }
        r
    }

    /// Appends a present row.
    pub fn push_value(&mut self, v: T)
        requires
            old(self).wf(),
        ensures
            final(self).wf(),
            final(self).view() == old(self).view().push(Some(v@)),
    {
        self.values.push(v);
        self.bits.push(true);
        proof {
            assert(self.view() =~= old(self).view().push(Some(v@)));
        }
    }

    /// Appends a missing row.
    pub fn push_null(&mut self)
        requires
            old(self).wf(),
        ensures
            final(self).wf(),
            final(self).view() == old(self).view().push(None::<T::V>),
    {
        let f = self.fill.clone();
        self.values.push(f);
        self.bits.push(false);
        proof {
            assert(self.view() =~= old(self).view().push(None::<T::V>));
        }
    }

    /// The finished chunk.
    pub fn finish(self) -> (r: Chunk<T>)
        requires
            self.wf(),
        ensures
            r.wf(),
            r@ == self.view(),
    {
        let validity = Bitmap::from_bools(&self.bits);
        let r = Chunk { values: self.values, validity: Some(validity) };
        proof {
            assert(r@ =~= self.view());
        }
        r
    }
}

/// An ordered sequence of chunks seen as one logical column.
pub struct ChunkedColumn<T> {
    chunks: Vec<Chunk<T>>,
}

/// The flat row sequence of a sequence of chunks.
pub open spec fn chunks_view<T: View>(cs: Seq<Chunk<T>>) -> Seq<Option<T::V>> {
    concat_seqs(cs.map_values(|c: Chunk<T>| c@))
}

impl<T: View> View for ChunkedColumn<T> {
    type V = Seq<Option<T::V>>;

    closed spec fn view(&self) -> Seq<Option<T::V>> {
        chunks_view(self.chunks@)
    }
}

impl<T: View> ChunkedColumn<T> {
    /// Every chunk is well formed and the total row count fits `usize`.
    pub closed spec fn wf(&self) -> bool {
        (forall|c: int| 0 <= c < self.chunks@.len() ==> self.chunks@[c].wf()) && self@.len()
            <= usize::MAX
    }

    /// A column of one chunk.
    pub fn single(chunk: Chunk<T>) -> (r: ChunkedColumn<T>)
        requires
            chunk.wf(),
        ensures
            r.wf(),
            r@ == chunk@,
    {
        let n = chunk.len();
        let mut chunks: Vec<Chunk<T>> = Vec::new();
        chunks.push(chunk);
        let r = ChunkedColumn { chunks };
        proof {
            lemma_concat_seqs_singleton(r.chunks@.map_values(|c: Chunk<T>| c@));
            assert(r@.len() == n);
        }
        r
    }

    /// A column from a list of chunks.
    pub fn from_chunks(chunks: Vec<Chunk<T>>) -> (r: ChunkedColumn<T>)
        requires
            forall|c: int| 0 <= c < chunks@.len() ==> chunks@[c].wf(),
            chunks_view(chunks@).len() <= usize::MAX,
        ensures
            r.wf(),
            r@ == chunks_view(chunks@),
    {
        ChunkedColumn { chunks }
    }

    /// How many chunks the column has, as seen by specifications.
    pub closed spec fn spec_chunk_count(&self) -> nat {
        self.chunks@.len()
    }

    /// The number of physical chunks.
    pub fn chunk_count(&self) -> (r: usize)
        ensures
            r == self.spec_chunk_count(),
    {
        self.chunks.len()
    }

    /// The logical number of rows.
    pub fn len(&self) -> (r: usize)
        requires
            self.wf(),
        ensures
            r == self@.len(),
    {
        let n = self.chunks.len();
        let mut c: usize = n;
        let mut sum: usize = 0;
        proof {
            assert(self.chunks@.map_values(|ch: Chunk<T>| ch@).subrange(n as int, n as int)
                =~= Seq::<Seq<Option<T::V>>>::empty());
        }
        while c > 0
            invariant
                self.wf(),
                n == self.chunks@.len(),
                c <= n,
                sum == concat_seqs(
                    self.chunks@.map_values(|ch: Chunk<T>| ch@).subrange(c as int, n as int),
                ).len(),
                sum <= self@.len(),
            decreases c,
        {
            c -= 1;
            proof {
                let views = self.chunks@.map_values(|ch: Chunk<T>| ch@);
                assert(views.subrange(c as int, n as int).drop_first() =~= views.subrange(
                    c + 1,
                    n as int,
                ));
                lemma_concat_seqs_split(views, c as int);
                assert(concat_seqs(views.subrange(c as int, n as int)).len() <= self@.len());
            }
            sum += self.chunks[c].len();
        }
        proof {
            assert(self.chunks@.map_values(|ch: Chunk<T>| ch@).subrange(0, n as int)
                =~= self.chunks@.map_values(|ch: Chunk<T>| ch@));
        }
        sum
    }

    /// The optional value of logical row `i`.
    pub fn get(&self, i: usize) -> (r: Option<&T>)
        requires
            self.wf(),
            i < self@.len(),
        ensures
            match r {
                Some(v) => self@[i as int] == Some(v@),
                None => self@[i as int] is None,
            },
    {
        let n = self.chunks.len();
        let mut c: usize = 0;
        let mut rem: usize = i;
        proof {
            assert(self.chunks@.map_values(|ch: Chunk<T>| ch@).subrange(0, n as int)
                =~= self.chunks@.map_values(|ch: Chunk<T>| ch@));
        }
        loop
            invariant
                self.wf(),
                i < self@.len(),
                n == self.chunks@.len(),
                c <= n,
                rem <= i,
                concat_seqs(
                    self.chunks@.map_values(|ch: Chunk<T>| ch@).subrange(c as int, n as int),
                ).len() > rem,
                concat_seqs(
                    self.chunks@.map_values(|ch: Chunk<T>| ch@).subrange(c as int, n as int),
                )[rem as int] == self@[i as int],
            decreases n - c,
        {
            proof {
                let views = self.chunks@.map_values(|ch: Chunk<T>| ch@);
                if c == n {
                    assert(views.subrange(c as int, n as int) =~= Seq::<
                        Seq<Option<T::V>>,
                    >::empty());
                }
                assert(c < n);
                assert(views.subrange(c as int, n as int).drop_first() =~= views.subrange(
                    c + 1,
                    n as int,
                ));
            }
            let clen = self.chunks[c].len();
            if rem < clen {
                return self.chunks[c].get(rem);
            }
            rem -= clen;
            c += 1;
        }
    }
}

/// A boolean chunk: values packed as bits, plus an optional validity mask.
pub struct BoolChunk {
    values: Bitmap,
    validity: Option<Bitmap>,
}

impl View for BoolChunk {
    type V = Seq<Option<bool>>;

    closed spec fn view(&self) -> Seq<Option<bool>> {
        Seq::new(
            self.values@.len(),
            |i: int|
                match self.validity {
                    Some(vb) => if vb@[i] {
                        Some(self.values@[i])
                    } else {
                        None
                    },
                    None => Some(self.values@[i]),
                },
        )
    }
}

impl BoolChunk {
    pub closed spec fn wf(&self) -> bool {
        self.values.wf() && match self.validity {
            Some(vb) => vb.wf() && vb@.len() == self.values@.len(),
            None => true,
        }
    }

    /// Whether the chunk carries a validity mask at all.
    pub closed spec fn has_validity(&self) -> bool {
        self.validity is Some
    }

    /// A fully-present chunk over a value bitmap.
    pub fn from_bits(values: Bitmap) -> (r: BoolChunk)
        requires
            values.wf(),
        ensures
            r.wf(),
            !r.has_validity(),
            r@.len() == values@.len(),
            forall|i: int| 0 <= i < values@.len() ==> r@[i] == Some(values@[i]),
    {
        BoolChunk { values, validity: None }
    }

    /// A chunk with an explicit validity mask.
    pub fn new_masked(values: Bitmap, validity: Bitmap) -> (r: BoolChunk)
        requires
            values.wf(),
            validity.wf(),
            validity@.len() == values@.len(),
        ensures
            r.wf(),
            r@.len() == values@.len(),
            forall|i: int|
                0 <= i < values@.len() ==> r@[i] == if validity@[i] {
                    Some(values@[i])
                } else {
                    None::<bool>
                },
    {
        BoolChunk { values, validity: Some(validity) }
    }

    /// A chunk holding `items` in reverse order.
    pub fn from_rev(items: &Vec<Option<bool>>) -> (r: BoolChunk)
        ensures
            r.wf(),
            r@.len() == items@.len(),
            forall|i: int| 0 <= i < items@.len() ==> r@[i] == items@[items@.len() - 1 - i],
    {
        let size = items.len();
        let mut vals = Bitmap::new_filled(size, false);
        let mut validity = Bitmap::new_filled(size, true);
        let mut k: usize = 0;
        while k < size
            invariant
                size == items@.len(),
                k <= size,
                vals.wf(),
                validity.wf(),
                vals@.len() == size,
                validity@.len() == size,
                forall|i: int|
                    size - k <= i < size ==> (validity@[i] ==> Some(vals@[i]) == items@[size - 1
                        - i]) && (validity@[i] <==> items@[size - 1 - i] is Some),
                forall|i: int| 0 <= i < size - k ==> validity@[i] && !vals@[i],
            decreases size - k,
        {
            let offset = size - 1 - k;
            match items[k] {
                Some(item) => {
                    if item {
                        vals.set(offset);
                    }
                },
                None => {
                    validity.unset(offset);
                },
            }
            k += 1;
        }
        let r = BoolChunk { values: vals, validity: Some(validity) };
        r
    }

    pub fn len(&self) -> (r: usize)
        ensures
            r == self@.len(),
    {
        self.values.len()
    }

    /// The optional value of row `o`.
    pub fn get(&self, o: usize) -> (r: Option<bool>)
        requires
            self.wf(),
            o < self@.len(),
        ensures
            r == self@[o as int],
    {
        match &self.validity {
            Some(vb) => {
                if vb.get(o) {
                    Some(self.values.get(o))
                } else {
                    None
                }
            },
            None => Some(self.values.get(o)),
        }
    }

    /// The packed value bits, ignoring validity.
    pub fn value_bits(&self) -> (r: &Bitmap)
        requires
            self.wf(),
        ensures
            r.wf(),
            r@.len() == self@.len(),
            forall|i: int| 0 <= i < self@.len() && self@[i] is Some ==> self@[i] == Some(r@[i]),
    {
        &self.values
    }

    /// The number of missing rows.
    pub fn null_count(&self) -> (r: usize)
        requires
            self.wf(),
        ensures
            r == crate::bits::count_unset(validity_view(self)),
    {
        match &self.validity {
            Some(vb) => {
                proof {
                    assert(vb@ =~= validity_view(self));
                }
                vb.unset_bits()
            },
            None => {
                proof {
                    let vv = validity_view(self);
                    assert(forall|i: int| 0 <= i < vv.len() ==> vv[i]);
                    crate::bits::lemma_count_unset_bounds(vv);
                }
                0
            },
        }
    }
}

/// The presence mask of a boolean chunk: `true` where the row is present.
pub open spec fn validity_view(c: &BoolChunk) -> Seq<bool> {
    Seq::new(c@.len(), |i: int| c@[i] is Some)
}

/// A logical boolean column over bit-packed chunks.
pub struct BoolColumn {
    chunks: Vec<BoolChunk>,
}

impl View for BoolColumn {
    type V = Seq<Option<bool>>;

    closed spec fn view(&self) -> Seq<Option<bool>> {
        concat_seqs(self.chunks@.map_values(|c: BoolChunk| c@))
    }
}

impl BoolColumn {
    pub closed spec fn wf(&self) -> bool {
        (forall|c: int| 0 <= c < self.chunks@.len() ==> self.chunks@[c].wf()) && self@.len()
            <= usize::MAX
    }

    pub closed spec fn spec_chunk_count(&self) -> nat {
        self.chunks@.len()
    }

    /// A column of one chunk.
    pub fn single(chunk: BoolChunk) -> (r: BoolColumn)
        requires
            chunk.wf(),
        ensures
            r.wf(),
            r.spec_chunk_count() == 1,
            r@ == chunk@,
    {
        let n = chunk.len();
        let mut chunks: Vec<BoolChunk> = Vec::new();
        chunks.push(chunk);
        let r = BoolColumn { chunks };
        proof {
            lemma_concat_seqs_singleton(r.chunks@.map_values(|c: BoolChunk| c@));
            assert(r@.len() == n);
        }
        r
    }

    /// An empty column.
    pub fn empty() -> (r: BoolColumn)
        ensures
            r.wf(),
            r@ == Seq::<Option<bool>>::empty(),
    {
        let r = BoolColumn { chunks: Vec::new() };
        proof {
            assert(r.chunks@.map_values(|c: BoolChunk| c@) =~= Seq::<Seq<Option<bool>>>::empty());
        }
        r
    }

    /// A column from a list of chunks.
    pub fn from_chunks(chunks: Vec<BoolChunk>) -> (r: BoolColumn)
        requires
            forall|c: int| 0 <= c < chunks@.len() ==> chunks@[c].wf(),
            concat_seqs(chunks@.map_values(|c: BoolChunk| c@)).len() <= usize::MAX,
        ensures
            r.wf(),
            r@ == concat_seqs(chunks@.map_values(|c: BoolChunk| c@)),
    {
        BoolColumn { chunks }
    }

    pub fn chunk_count(&self) -> (r: usize)
        ensures
            r == self.spec_chunk_count(),
    {
        self.chunks.len()
    }

    /// The rows of chunk `c`, as seen by specifications.
    pub closed spec fn spec_chunk_view(&self, c: int) -> Seq<Option<bool>> {
        self.chunks@[c]@
    }

    /// Chunk `c` of the column.
    pub fn chunk_at(&self, c: usize) -> (r: &BoolChunk)
        requires
            self.wf(),
            c < self.spec_chunk_count(),
        ensures
            r.wf(),
            r@ == self.spec_chunk_view(c as int),
            self.spec_chunk_count() == 1 && c == 0 ==> r@ == self@,
    {
        proof {
            if self.chunks@.len() == 1 {
                lemma_concat_seqs_singleton(self.chunks@.map_values(|ch: BoolChunk| ch@));
            }
        }
        &self.chunks[c]
    }

    /// The logical number of rows.
    pub fn len(&self) -> (r: usize)
        requires
            self.wf(),
        ensures
            r == self@.len(),
    {
        let n = self.chunks.len();
        let mut c: usize = n;
        let mut sum: usize = 0;
        proof {
            assert(self.chunks@.map_values(|ch: BoolChunk| ch@).subrange(n as int, n as int)
                =~= Seq::<Seq<Option<bool>>>::empty());
        }
        while c > 0
            invariant
                self.wf(),
                n == self.chunks@.len(),
                c <= n,
                sum == concat_seqs(
                    self.chunks@.map_values(|ch: BoolChunk| ch@).subrange(c as int, n as int),
                ).len(),
                sum <= self@.len(),
            decreases c,
        {
            c -= 1;
            proof {
                let views = self.chunks@.map_values(|ch: BoolChunk| ch@);
                assert(views.subrange(c as int, n as int).drop_first() =~= views.subrange(
                    c + 1,
                    n as int,
                ));
                lemma_concat_seqs_split(views, c as int);
                assert(concat_seqs(views.subrange(c as int, n as int)).len() <= self@.len());
            }
            sum += self.chunks[c].len();
        }
        proof {
            assert(self.chunks@.map_values(|ch: BoolChunk| ch@).subrange(0, n as int)
                =~= self.chunks@.map_values(|ch: BoolChunk| ch@));
        }
        sum
    }

    /// The optional value of logical row `i`.
    pub fn get(&self, i: usize) -> (r: Option<bool>)
        requires
            self.wf(),
            i < self@.len(),
        ensures
            r == self@[i as int],
    {
        let n = self.chunks.len();
        let mut c: usize = 0;
        let mut rem: usize = i;
        proof {
            assert(self.chunks@.map_values(|ch: BoolChunk| ch@).subrange(0, n as int)
                =~= self.chunks@.map_values(|ch: BoolChunk| ch@));
        }
        loop
            invariant
                self.wf(),
                i < self@.len(),
                n == self.chunks@.len(),
                c <= n,
                rem <= i,
                concat_seqs(
                    self.chunks@.map_values(|ch: BoolChunk| ch@).subrange(c as int, n as int),
                ).len() > rem,
                concat_seqs(
                    self.chunks@.map_values(|ch: BoolChunk| ch@).subrange(c as int, n as int),
                )[rem as int] == self@[i as int],
            decreases n - c,
        {
            proof {
                let views = self.chunks@.map_values(|ch: BoolChunk| ch@);
                if c == n {
                    assert(views.subrange(c as int, n as int) =~= Seq::<
                        Seq<Option<bool>>,
                    >::empty());
                }
                assert(c < n);
                assert(views.subrange(c as int, n as int).drop_first() =~= views.subrange(
                    c + 1,
                    n as int,
                ));
            }
            let clen = self.chunks[c].len();
            if rem < clen {
                return self.chunks[c].get(rem);
            }
            rem -= clen;
            c += 1;
        }
    }
}

/// A single-chunk boolean column from per-row values and validity.
pub fn bool_column_from_rows(values: &Vec<bool>, valid: &Vec<bool>) -> (r: BoolColumn)
    requires
        values@.len() == valid@.len(),
    ensures
        r.wf(),
        r@.len() == values@.len(),
        forall|i: int|
            0 <= i < values@.len() ==> r@[i] == (if valid@[i] {
                Some(values@[i])
            } else {
                None::<bool>
            }),
{
    let vb = Bitmap::from_bools(values);
    let mb = Bitmap::from_bools(valid);
    BoolColumn::single(BoolChunk::new_masked(vb, mb))
}

/// A growable all-null array: only its length is stored.
pub struct MutableNullArray {
    len: usize,
}

impl MutableNullArray {
    /// How many nulls the array holds.
    pub closed spec fn spec_len(&self) -> usize {
        self.len
    }

    /// An empty all-null array.
    pub fn new() -> (r: MutableNullArray)
        ensures
            r.spec_len() == 0,
    {
        MutableNullArray { len: 0 }
    }

    pub fn len(&self) -> (r: usize)
        ensures
            r == self.spec_len(),
    {
        self.len
    }

    pub fn data_type(&self) -> (r: DType)
        ensures
            r == DType::Null,
    {
        DType::Null
    }

    /// An all-null array has no validity mask.
    pub fn validity(&self) -> (r: Option<&Bitmap>)
        ensures
            r is None,
    {
        None
    }

    /// Appends one null.
    pub fn push_null(&mut self)
        requires
            old(self).spec_len() < usize::MAX,
        ensures
            final(self).spec_len() == old(self).spec_len() + 1,
    {
        self.len += 1;
    }

    /// Appends `null_count` nulls.
    pub fn extend_nulls(&mut self, null_count: usize)
        requires
            old(self).spec_len() + null_count <= usize::MAX,
        ensures
            final(self).spec_len() == old(self).spec_len() + null_count,
    {
        self.len += null_count;
    }
}

impl Default for MutableNullArray {
    /// The default array is empty.
    fn default() -> (r: MutableNullArray)
        ensures
            r.spec_len() == 0,
    {
        MutableNullArray::new()
    }
}

} // verus!
