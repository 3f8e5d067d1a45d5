//! Stream chunks: columns of rows with an operation tag per row and an
//! optional visibility bitmap.
use vstd::prelude::*;
use crate::array::{array_wf, ArrayImpl, ArrayV, Column};
use crate::types::{copy_datum, datum_view, datums_view, Datum, Op};

verus! {

/// A batch of rows in columnar form.
#[derive(Debug)]
pub struct StreamChunk {
    pub ops: Vec<Op>,
    pub columns: Vec<Column>,
    pub visibility: Option<Vec<bool>>,
}

/// The mathematical value of a [`StreamChunk`].
pub struct ChunkV {
    pub ops: Seq<Op>,
    pub columns: Seq<ArrayV>,
    pub visibility: Option<Seq<bool>>,
}

impl View for StreamChunk {
    type V = ChunkV;

    open spec fn view(&self) -> ChunkV {
        ChunkV {
            ops: self.ops@,
            columns: self.columns@.map_values(|c: Column| c@),
            visibility: match self.visibility {
                Some(v) => Some(v@),
                None => None,
            },
        }
    }
}

/// Every column is well typed and as long as the operations, and so is the bitmap.
pub open spec fn chunk_wf(c: ChunkV) -> bool {
    &&& forall|j: int|
        0 <= j < c.columns.len() ==> (#[trigger] c.columns[j]).values.len() == c.ops.len()
            && array_wf(c.columns[j])
    &&& c.visibility matches Some(v) ==> v.len() == c.ops.len()
}

/// Row `i` of the chunk is retained.
pub open spec fn row_visible(c: ChunkV, i: int) -> bool {
    match c.visibility {
        Some(v) => v[i],
        None => true,
    }
}

/// Number of `true` entries.
pub open spec fn count_true(s: Seq<bool>) -> nat
    decreases s.len(),
{
    if s.len() == 0 {
        0
    } else {
        count_true(s.drop_last()) + if s.last() {
            1nat
        } else {
            0nat
        }
    }
}

/// Number of retained rows.
pub open spec fn cardinality_of(c: ChunkV) -> nat {
    match c.visibility {
        Some(v) => count_true(v),
        None => c.ops.len(),
    }
}

/// The entries of `s` at the positions where `keep` is `true`, in order.
pub open spec fn filter_seq<A>(s: Seq<A>, keep: Seq<bool>) -> Seq<A>
    decreases s.len(),
{
    if s.len() == 0 {
        Seq::empty()
    } else {
        filter_seq(s.drop_last(), keep.take(s.len() - 1)) + if keep[s.len() - 1] {
            seq![s.last()]
        } else {
            Seq::empty()
        }
    }
}

/// The chunk with its hidden rows removed and no bitmap.
pub open spec fn compacted(c: ChunkV) -> ChunkV {
    match c.visibility {
        None => c,
        Some(v) => ChunkV {
            ops: filter_seq(c.ops, v),
            columns: c.columns.map_values(
                |a: ArrayV| ArrayV { data_type: a.data_type, values: filter_seq(a.values, v) },
            ),
            visibility: None,
        },
    }
}

pub proof fn lemma_filter_step<A>(s: Seq<A>, keep: Seq<bool>, i: int)
    requires
        0 <= i < s.len(),
        s.len() <= keep.len(),
    ensures
        filter_seq(s.take(i + 1), keep.take(i + 1)) == filter_seq(s.take(i), keep.take(i)) + if keep[i] {
            seq![s[i]]
        } else {
            Seq::<A>::empty()
        },
{
    assert(s.take(i + 1).drop_last() =~= s.take(i));
    assert(keep.take(i + 1).take(i) =~= keep.take(i));
}

pub proof fn lemma_filter_len<A>(s: Seq<A>, keep: Seq<bool>)
    requires
        s.len() == keep.len(),
    ensures
        filter_seq(s, keep).len() == count_true(keep),
    decreases s.len(),
{
    if s.len() > 0 {
        assert(keep.take(s.len() - 1) =~= keep.drop_last());
        lemma_filter_len(s.drop_last(), keep.take(s.len() - 1));
    }
}

pub proof fn lemma_count_step(s: Seq<bool>, i: int)
    requires
        0 <= i < s.len(),
    ensures
        count_true(s.take(i + 1)) == count_true(s.take(i)) + if s[i] {
            1nat
        } else {
            0nat
        },
{
    assert(s.take(i + 1).drop_last() =~= s.take(i));
}

/// The datums of an array at the positions where `keep` is `true`.
pub fn filter_array(a: &ArrayImpl, keep: &Vec<bool>) -> (r: ArrayImpl)
    requires
        a@.values.len() == keep@.len(),
    ensures
        r@ == (ArrayV { data_type: a@.data_type, values: filter_seq(a@.values, keep@) }),
{
    let mut out: Vec<Datum> = Vec::new();
    let mut i: usize = 0;
    while i < a.values.len()
        invariant
            i <= a@.values.len(),
            a@.values.len() == keep@.len(),
            datums_view(out@) == filter_seq(a@.values.take(i as int), keep@.take(i as int)),
        decreases a@.values.len() - i,
    {
        let ghost before = out@;
        proof {
            lemma_filter_step(a@.values, keep@, i as int);
        }
        if keep[i] {
            out.push(copy_datum(&a.values[i]));
            assert(datums_view(out@) =~= datums_view(before) + seq![datum_view(a.values@[i as int])]);
        }
        i = i + 1;
    }
    assert(a@.values.take(i as int) =~= a@.values);
    assert(keep@.take(i as int) =~= keep@);
    ArrayImpl { data_type: a.data_type, values: out }
}

impl StreamChunk {
    /// A chunk of the given operations, columns and bitmap.
    pub fn new(ops: Vec<Op>, columns: Vec<Column>, visibility: Option<Vec<bool>>) -> (r: StreamChunk)
        ensures
            r@ == (ChunkV {
                ops: ops@,
                columns: columns@.map_values(|c: Column| c@),
                visibility: match visibility {
                    Some(v) => Some(v@),
                    None => None,
                },
            }),
    {
        StreamChunk { ops, columns, visibility }
    }

    /// Number of rows, retained or not.
    pub fn capacity(&self) -> (r: usize)
        ensures
            r == self@.ops.len(),
    {
        self.ops.len()
    }

    /// Row `i` is retained.
    pub fn is_visible(&self, i: usize) -> (r: bool)
        requires
            chunk_wf(self@),
            i < self@.ops.len(),
        ensures
            r == row_visible(self@, i as int),
    {
        match &self.visibility {
            Some(v) => v[i],
            None => true,
        }
    }

    /// Number of retained rows.
    pub fn cardinality(&self) -> (r: usize)
        requires
            chunk_wf(self@),
        ensures
            r == cardinality_of(self@),
    {
        match &self.visibility {
            None => self.ops.len(),
            Some(v) => {
                let mut n: usize = 0;
                let mut i: usize = 0;
                while i < v.len()
                    invariant
                        i <= v@.len(),
                        n == count_true(v@.take(i as int)),
                        n <= i,
                    decreases v@.len() - i,
                {
                    proof {
                        lemma_count_step(v@, i as int);
                    }
                    if v[i] {
                        n = n + 1;
                    }
                    i = i + 1;
                }
                assert(v@.take(i as int) =~= v@);
                n
            },
        }
    }

    /// A copy of the chunk with its hidden rows removed.
    pub fn compact(&self) -> (r: StreamChunk)
        requires
            chunk_wf(self@),
        ensures
            r@ == compacted(self@),
            chunk_wf(r@),
    {
        match &self.visibility {
            None => {
                let r = self.copy();
                r
            },
            Some(vis) => {
                let mut ops: Vec<Op> = Vec::new();
                let mut i: usize = 0;
                while i < self.ops.len()
                    invariant
                        i <= self@.ops.len(),
                        chunk_wf(self@),
                        self.visibility == Some(*vis),
                        ops@ == filter_seq(self@.ops.take(i as int), vis@.take(i as int)),
                    decreases self@.ops.len() - i,
                {
                    proof {
                        lemma_filter_step(self@.ops, vis@, i as int);
                    }
                    if vis[i] {
                        ops.push(self.ops[i]);
                    }
                    i = i + 1;
                }
                assert(self@.ops.take(i as int) =~= self@.ops);
                assert(vis@.take(i as int) =~= vis@);
                let mut columns: Vec<Column> = Vec::new();
                let mut k: usize = 0;
                while k < self.columns.len()
                    invariant
                        k <= self.columns@.len(),
                        chunk_wf(self@),
                        self.visibility == Some(*vis),
                        columns@.len() == k,
                        forall|j: int|
                            0 <= j < k ==> (#[trigger] columns@[j])@ == (ArrayV {
                                data_type: self@.columns[j].data_type,
                                values: filter_seq(self@.columns[j].values, vis@),
                            }),
                    decreases self.columns@.len() - k,
                {
                    assert(self@.columns[k as int] == self.columns@[k as int]@);
                    let a = filter_array(self.columns[k].array_ref(), vis);
                    columns.push(Column::new(a));
                    k = k + 1;
                }
                let r = StreamChunk { ops, columns, visibility: None };
                assert(r@.columns =~= compacted(self@).columns);
                proof {
                    lemma_compacted_wf(self@);
                }
                r
            },
        }
    }

    /// A copy of the chunk.
    pub fn copy(&self) -> (r: StreamChunk)
        ensures
            r@ == self@,
    {
        let columns = copy_columns(&self.columns);
        let visibility = match &self.visibility {
            Some(v) => Some(v.clone()),
            None => None,
        };
        let r = StreamChunk { ops: self.ops.clone(), columns, visibility };
        assert(r.ops@ =~= self.ops@);
        r
    }
}

/// Copies of the columns.
pub fn copy_columns(cols: &Vec<Column>) -> (r: Vec<Column>)
    ensures
        r@.map_values(|c: Column| c@) == cols@.map_values(|c: Column| c@),
{
    let mut columns: Vec<Column> = Vec::new();
    let mut k: usize = 0;
    while k < cols.len()
        invariant
            k <= cols@.len(),
            columns@.len() == k,
            forall|j: int| 0 <= j < k ==> (#[trigger] columns@[j])@ == cols@[j]@,
        decreases cols@.len() - k,
    {
        columns.push(cols[k].copy());
        k = k + 1;
    }
    assert(columns@.map_values(|c: Column| c@) =~= cols@.map_values(|c: Column| c@));
    columns
}

pub proof fn lemma_count_true_pos(s: Seq<bool>)
    ensures
        count_true(s) > 0 <==> exists|i: int| 0 <= i < s.len() && s[i],
        count_true(s) <= s.len(),
    decreases s.len(),
{
    if s.len() > 0 {
        let p = s.drop_last();
        lemma_count_true_pos(p);
        assert(forall|i: int| 0 <= i < p.len() ==> p[i] == s[i]);
        if count_true(p) > 0 {
            let i = choose|i: int| 0 <= i < p.len() && p[i];
            assert(s[i]);
        }
        if s.last() {
            assert(s[s.len() - 1]);
        }
    }
}

pub proof fn lemma_compacted_wf(c: ChunkV)
    requires
        chunk_wf(c),
    ensures
        chunk_wf(compacted(c)),
{
    if let Some(v) = c.visibility {
        lemma_filter_len(c.ops, v);
        let r = compacted(c);
        assert forall|j: int| 0 <= j < r.columns.len() implies (#[trigger] r.columns[j]).values.len()
            == r.ops.len() && array_wf(r.columns[j]) by {
            lemma_filter_len(c.columns[j].values, v);
            lemma_filter_keeps(c.columns[j].values, v, c.columns[j].data_type);
        }
    }
}

/// Filtering keeps every value's type.
pub proof fn lemma_filter_keeps(s: Seq<crate::types::DatumV>, keep: Seq<bool>, t: crate::types::DataType)
    requires
        forall|i: int| 0 <= i < s.len() ==> crate::types::datum_has_type(#[trigger] s[i], t),
    ensures
        forall|i: int|
            0 <= i < filter_seq(s, keep).len() ==> crate::types::datum_has_type(
                #[trigger] filter_seq(s, keep)[i],
                t,
            ),
    decreases s.len(),
{
    if s.len() > 0 {
        let prev = filter_seq(s.drop_last(), keep.take(s.len() - 1));
        lemma_filter_keeps(s.drop_last(), keep.take(s.len() - 1), t);
        let f = filter_seq(s, keep);
        assert forall|i: int| 0 <= i < f.len() implies crate::types::datum_has_type(#[trigger] f[i], t) by {
            if i < prev.len() {
                assert(f[i] == prev[i]);
            } else {
                assert(f[i] == s.last());
            }
        }
    }
}

} // verus!
