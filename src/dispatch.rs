//! Dispatchers: how an actor's output chunks are routed to its downstream
//! actors. Barriers always go to every output.
use vstd::prelude::*;
use crate::chunk::{
    chunk_wf, compacted, count_true, filter_seq, lemma_count_step, lemma_count_true_pos,
    lemma_filter_len, lemma_filter_step, row_visible, copy_columns, ChunkV, StreamChunk,
};
use crate::error::StreamError;
use crate::hash::{compute_vnodes, keys_in_range, vnode_of, VIRTUAL_NODE_COUNT};
use crate::message::{contains_id, Barrier, BarrierV, Message, MessageV};
use crate::types::Op;

verus! {

/// One downstream actor of a dispatcher and the writer end of its channel.
pub struct Output<W> {
    pub actor_id: u32,
    /// The downstream runs in another process: chunks are compacted before sending.
    pub remote: bool,
    pub writer: W,
}

/// A message to be sent on the output at position `output`.
#[derive(Debug)]
pub struct Delivery {
    pub output: usize,
    pub message: Message,
}

pub struct DeliveryV {
    pub output: usize,
    pub message: MessageV,
}

impl View for Delivery {
    type V = DeliveryV;

    open spec fn view(&self) -> DeliveryV {
        DeliveryV { output: self.output, message: self.message@ }
    }
}

pub open spec fn deliveries_view(s: Seq<Delivery>) -> Seq<DeliveryV> {
    s.map_values(|d: Delivery| d@)
}

/// What an output sends for `m`: remote outputs send chunks without hidden rows.
pub open spec fn delivered(remote: bool, m: MessageV) -> MessageV {
    match m {
        MessageV::Chunk(c) => if remote {
            MessageV::Chunk(compacted(c))
        } else {
            m
        },
        MessageV::Barrier(_) => m,
    }
}

/// Prepares `chunk` for the output at position `index`.
pub fn deliver_chunk(index: usize, remote: bool, chunk: StreamChunk) -> (r: Delivery)
    requires
        chunk_wf(chunk@),
    ensures
        r@ == (DeliveryV { output: index, message: delivered(remote, MessageV::Chunk(chunk@)) }),
{
    if remote {
        Delivery { output: index, message: Message::Chunk(chunk.compact()) }
    } else {
        Delivery { output: index, message: Message::Chunk(chunk) }
    }
}

/// The barrier, once for each of `n` outputs, in output order.
pub open spec fn barrier_broadcast(b: BarrierV, n: nat) -> Seq<DeliveryV> {
    Seq::new(n, |k: int| DeliveryV { output: k as usize, message: MessageV::Barrier(b) })
}

/// A copy of the barrier for every output.
pub fn broadcast_barrier<W>(outputs: &Vec<Output<W>>, barrier: &Barrier) -> (r: Vec<Delivery>)
    ensures
        deliveries_view(r@) == barrier_broadcast(barrier@, outputs@.len()),
{
    let mut out: Vec<Delivery> = Vec::new();
    let mut k: usize = 0;
    while k < outputs.len()
        invariant
            k <= outputs@.len(),
            out@.len() == k,
            forall|j: int|
                0 <= j < k ==> (#[trigger] out@[j])@ == (DeliveryV {
                    output: j as usize,
                    message: MessageV::Barrier(barrier@),
                }),
        decreases outputs@.len() - k,
    {
        out.push(Delivery { output: k, message: Message::Barrier(barrier.copy()) });
        k = k + 1;
    }
    assert(deliveries_view(out@) =~= barrier_broadcast(barrier@, outputs@.len()));
    out
}

/// Which outputs stay when the actors `ids` are removed.
pub open spec fn keep_mask<W>(s: Seq<Output<W>>, ids: Seq<u32>) -> Seq<bool> {
    Seq::new(s.len(), |i: int| !ids.contains(s[i].actor_id))
}

/// The outputs whose actor is not in `ids`, in order.
pub fn retain_outputs<W>(outputs: Vec<Output<W>>, ids: &Vec<u32>) -> (r: Vec<Output<W>>)
    ensures
        r@ == filter_seq(outputs@, keep_mask(outputs@, ids@)),
{
    let ghost orig = outputs@;
    let ghost mask = keep_mask(orig, ids@);
    let n0 = outputs.len();
    let mut rest = outputs;
    let mut out: Vec<Output<W>> = Vec::new();
    let mut k: usize = 0;
    while rest.len() > 0
        invariant
            n0 == orig.len(),
            k <= orig.len(),
            rest@ == orig.subrange(k as int, orig.len() as int),
            mask == keep_mask(orig, ids@),
            out@ == filter_seq(orig.take(k as int), mask.take(k as int)),
        decreases rest@.len(),
    {
        proof {
            lemma_filter_step(orig, mask, k as int);
        }
        let o = rest.remove(0);
        assert(o == orig[k as int]);
        if !contains_id(ids, o.actor_id) {
            out.push(o);
        }
        k = k + 1;
        assert(rest@ =~= orig.subrange(k as int, orig.len() as int));
    }
    assert(orig.take(k as int) =~= orig);
    assert(mask.take(k as int) =~= mask);
    out
}

/// Some output stays when the actors `ids` are removed.
pub fn any_kept<W>(outputs: &Vec<Output<W>>, ids: &Vec<u32>) -> (r: bool)
    ensures
        r == (filter_seq(outputs@, keep_mask(outputs@, ids@)).len() > 0),
{
    let ghost mask = keep_mask(outputs@, ids@);
    proof {
        lemma_filter_len(outputs@, mask);
        lemma_count_true_pos(mask);
    }
    let mut i: usize = 0;
    while i < outputs.len()
        invariant
            i <= outputs@.len(),
            mask == keep_mask(outputs@, ids@),
            forall|j: int| 0 <= j < i ==> !mask[j],
        decreases outputs@.len() - i,
    {
        if !contains_id(ids, outputs[i].actor_id) {
            assert(mask[i as int]);
            proof {
                lemma_filter_len(outputs@, mask);
                lemma_count_true_pos(mask);
            }
            return true;
        }
        i = i + 1;
    }
    false
}

// ---------------------------------------------------------------------------
// Hash shuffle

/// Row `i` keeps the pairing of updates: an `UpdateDelete` is directly
/// followed by an `UpdateInsert` of the same visibility, and an
/// `UpdateInsert` directly follows an `UpdateDelete`.
pub open spec fn pair_ok_at(c: ChunkV, i: int) -> bool {
    &&& c.ops[i] == Op::UpdateDelete ==> i + 1 < c.ops.len() && c.ops[i + 1] == Op::UpdateInsert
        && row_visible(c, i) == row_visible(c, i + 1)
    &&& c.ops[i] == Op::UpdateInsert ==> i >= 1 && c.ops[i - 1] == Op::UpdateDelete
}

/// Every row keeps the pairing of updates.
pub open spec fn pairs_wf(c: ChunkV) -> bool {
    forall|i: int| 0 <= i < c.ops.len() ==> #[trigger] pair_ok_at(c, i)
}

/// The first row that breaks [`pairs_wf`], if any.
pub fn check_update_pairs(chunk: &StreamChunk) -> (r: Result<(), StreamError>)
    requires
        chunk_wf(chunk@),
    ensures
        r is Ok <==> pairs_wf(chunk@),
{
    let n = chunk.ops.len();
    let mut i: usize = 0;
    while i < n
        invariant
            n == chunk@.ops.len(),
            chunk_wf(chunk@),
            i <= n,
            forall|j: int| 0 <= j < i ==> #[trigger] pair_ok_at(chunk@, j),
        decreases n - i,
    {
        let op = chunk.ops[i];
        if op == Op::UpdateDelete {
            if i + 1 >= n || chunk.ops[i + 1] != Op::UpdateInsert || chunk.is_visible(i)
                != chunk.is_visible(i + 1) {
                assert(!pair_ok_at(chunk@, i as int));
                return Err(StreamError::SplitUpdatePair { row: i });
            }
        } else if op == Op::UpdateInsert {
            if i == 0 || chunk.ops[i - 1] != Op::UpdateDelete {
                assert(!pair_ok_at(chunk@, i as int));
                return Err(StreamError::SplitUpdatePair { row: i });
            }
        }
        assert(pair_ok_at(chunk@, i as int));
        i = i + 1;
    }
    Ok(())
}

/// The operation of row `i` after hashing: a visible update pair whose two
/// rows fall on different virtual nodes becomes a `Delete` and an `Insert`.
pub open spec fn shuffled_op(c: ChunkV, vn: Seq<usize>, i: int) -> Op {
    if row_visible(c, i) && c.ops[i] == Op::UpdateDelete && vn[i] != vn[i + 1] {
        Op::Delete
    } else if row_visible(c, i) && c.ops[i] == Op::UpdateInsert && vn[i] != vn[i - 1] {
        Op::Insert
    } else {
        c.ops[i]
    }
}

pub open spec fn shuffled_ops(c: ChunkV, vn: Seq<usize>) -> Seq<Op> {
    Seq::new(c.ops.len(), |i: int| shuffled_op(c, vn, i))
}

/// The rows of `c` that the output for `actor` receives.
pub open spec fn hash_visibility(c: ChunkV, vn: Seq<usize>, mapping: Seq<u32>, actor: u32) -> Seq<bool> {
    Seq::new(c.ops.len(), |i: int| row_visible(c, i) && mapping[vn[i] as int] == actor)
}

/// The chunk that the output for `actor` receives: the same columns and
/// operations, with only its rows visible.
pub open spec fn hash_chunk(c: ChunkV, vn: Seq<usize>, mapping: Seq<u32>, actor: u32) -> ChunkV {
    ChunkV {
        ops: shuffled_ops(c, vn),
        columns: c.columns,
        visibility: Some(hash_visibility(c, vn, mapping, actor)),
    }
}

/// The deliveries of a hash shuffle to the first `n` outputs: one chunk for
/// each output that receives at least one row, in output order.
pub open spec fn hash_deliveries<W>(
    c: ChunkV,
    vn: Seq<usize>,
    mapping: Seq<u32>,
    outputs: Seq<Output<W>>,
    n: nat,
) -> Seq<DeliveryV>
    decreases n,
{
    if n == 0 {
        Seq::empty()
    } else {
        let k = n - 1;
        let vis = hash_visibility(c, vn, mapping, outputs[k].actor_id);
        hash_deliveries(c, vn, mapping, outputs, k as nat) + if count_true(vis) > 0 {
            seq![
                DeliveryV {
                    output: k as usize,
                    message: delivered(
                        outputs[k].remote,
                        MessageV::Chunk(hash_chunk(c, vn, mapping, outputs[k].actor_id)),
                    ),
                },
            ]
        } else {
            Seq::empty()
        }
    }
}

/// The virtual node of every row.
pub open spec fn vnodes_of(c: ChunkV, keys: Seq<usize>) -> Seq<usize> {
    Seq::new(c.ops.len(), |i: int| vnode_of(c, keys, i))
}

pub proof fn lemma_hash_chunk_wf(c: ChunkV, vn: Seq<usize>, mapping: Seq<u32>, actor: u32)
    requires
        chunk_wf(c),
        vn.len() == c.ops.len(),
    ensures
        chunk_wf(hash_chunk(c, vn, mapping, actor)),
{
}

/// Rewritten operations of the shuffle.
fn shuffle_ops(chunk: &StreamChunk, vn: &Vec<usize>) -> (r: Vec<Op>)
    requires
        chunk_wf(chunk@),
        pairs_wf(chunk@),
        vn@.len() == chunk@.ops.len(),
    ensures
        r@ == shuffled_ops(chunk@, vn@),
{
    let n = chunk.ops.len();
    let mut out: Vec<Op> = Vec::new();
    let mut i: usize = 0;
    while i < n
        invariant
            n == chunk@.ops.len(),
            vn@.len() == n,
            chunk_wf(chunk@),
            pairs_wf(chunk@),
            i <= n,
            out@.len() == i,
            forall|j: int| 0 <= j < i ==> #[trigger] out@[j] == shuffled_op(chunk@, vn@, j),
        decreases n - i,
    {
        let op = chunk.ops[i];
        let visible = chunk.is_visible(i);
        assert(pair_ok_at(chunk@, i as int));
        let new_op = if visible && op == Op::UpdateDelete && vn[i] != vn[i + 1] {
            Op::Delete
        } else if visible && op == Op::UpdateInsert && vn[i] != vn[i - 1] {
            Op::Insert
        } else {
            op
        };
        out.push(new_op);
        i = i + 1;
    }
    assert(out@ =~= shuffled_ops(chunk@, vn@));
    out
}

/// Rows for the output of `actor`, and how many there are.
fn shuffle_visibility(chunk: &StreamChunk, vn: &Vec<usize>, mapping: &Vec<u32>, actor: u32) -> (r: (
    Vec<bool>,
    usize,
))
    requires
        chunk_wf(chunk@),
        vn@.len() == chunk@.ops.len(),
        mapping@.len() == VIRTUAL_NODE_COUNT,
        forall|i: int| 0 <= i < vn@.len() ==> (#[trigger] vn@[i]) < VIRTUAL_NODE_COUNT,
    ensures
        r.0@ == hash_visibility(chunk@, vn@, mapping@, actor),
        r.1 == count_true(r.0@),
{
    let n = chunk.ops.len();
    let ghost target = hash_visibility(chunk@, vn@, mapping@, actor);
    let mut vis: Vec<bool> = Vec::new();
    let mut count: usize = 0;
    let mut i: usize = 0;
    while i < n
        invariant
            n == chunk@.ops.len(),
            vn@.len() == n,
            mapping@.len() == VIRTUAL_NODE_COUNT,
            forall|i: int| 0 <= i < vn@.len() ==> (#[trigger] vn@[i]) < VIRTUAL_NODE_COUNT,
            chunk_wf(chunk@),
            target == hash_visibility(chunk@, vn@, mapping@, actor),
            i <= n,
            vis@ == target.take(i as int),
            count == count_true(vis@),
            count <= i,
        decreases n - i,
    {
        proof {
            lemma_count_step(target, i as int);
        }
        let v = chunk.is_visible(i) && mapping[vn[i]] == actor;
        vis.push(v);
        if v {
            count = count + 1;
        }
        i = i + 1;
        assert(vis@ =~= target.take(i as int));
    }
    assert(target.take(i as int) =~= target);
    (vis, count)
}

/// Splits a chunk over `outputs` by the virtual node of each row.
pub fn hash_shuffle<W>(
    chunk: &StreamChunk,
    keys: &Vec<usize>,
    mapping: &Vec<u32>,
    outputs: &Vec<Output<W>>,
) -> (r: Result<Vec<Delivery>, StreamError>)
    requires
        chunk_wf(chunk@),
        mapping@.len() == VIRTUAL_NODE_COUNT,
    ensures
        r is Ok <==> keys_in_range(chunk@, keys@) && pairs_wf(chunk@),
        r matches Ok(d) ==> deliveries_view(d@) == hash_deliveries(
            chunk@,
            vnodes_of(chunk@, keys@),
            mapping@,
            outputs@,
            outputs@.len(),
        ),
{
    let vn = match compute_vnodes(chunk, keys) {
        Ok(v) => v,
        Err(e) => {
            return Err(e);
        },
    };
    match check_update_pairs(chunk) {
        Ok(()) => {},
        Err(e) => {
            return Err(e);
        },
    }
    assert(vn@ =~= vnodes_of(chunk@, keys@));
    let ops = shuffle_ops(chunk, &vn);
    let mut out: Vec<Delivery> = Vec::new();
    let mut k: usize = 0;
    while k < outputs.len()
        invariant
            chunk_wf(chunk@),
            pairs_wf(chunk@),
            vn@ == vnodes_of(chunk@, keys@),
            vn@.len() == chunk@.ops.len(),
            forall|i: int| 0 <= i < vn@.len() ==> (#[trigger] vn@[i]) < VIRTUAL_NODE_COUNT,
            mapping@.len() == VIRTUAL_NODE_COUNT,
            ops@ == shuffled_ops(chunk@, vn@),
            k <= outputs@.len(),
            deliveries_view(out@) == hash_deliveries(chunk@, vn@, mapping@, outputs@, k as nat),
        decreases outputs@.len() - k,
    {
        let actor = outputs[k].actor_id;
        let (vis, count) = shuffle_visibility(chunk, &vn, mapping, actor);
        let ghost before = deliveries_view(out@);
        if count > 0 {
            let c = StreamChunk { ops: ops.clone(), columns: copy_columns(&chunk.columns), visibility: Some(vis) };
            assert(c.ops@ =~= ops@);
            assert(c@ == hash_chunk(chunk@, vn@, mapping@, actor));
            proof {
                lemma_hash_chunk_wf(chunk@, vn@, mapping@, actor);
            }
            let d = deliver_chunk(k, outputs[k].remote, c);
            out.push(d);
            assert(deliveries_view(out@) =~= before + seq![d@]);
        }
        k = k + 1;
    }
    Ok(out)
}

// ---------------------------------------------------------------------------
// Dispatchers

/// No two outputs are for the same actor.
pub open spec fn ids_unique<W>(s: Seq<Output<W>>) -> bool {
    forall|i: int, j: int| 0 <= i < j < s.len() ==> s[i].actor_id != s[j].actor_id
}

/// An actor that has two outputs in `s`, if any.
pub fn first_duplicate<W>(s: &Vec<Output<W>>) -> (r: Option<u32>)
    ensures
        r is None <==> ids_unique(s@),
{
    let total = s.len();
    let mut i: usize = 0;
    while i < total
        invariant
            total == s@.len(),
            i <= total,
            forall|x: int, y: int| 0 <= x < y < s@.len() && x < i ==> s@[x].actor_id != s@[y].actor_id,
        decreases total - i,
    {
        let ai = s[i].actor_id;
        let mut j: usize = i + 1;
        while j < total
            invariant
                total == s@.len(),
                i < j <= total,
                ai == s@[i as int].actor_id,
                forall|y: int| i < y < j ==> s@[i as int].actor_id != #[trigger] s@[y].actor_id,
            decreases total - j,
        {
            if ai == s[j].actor_id {
                return Some(ai);
            }
            j = j + 1;
        }
        i = i + 1;
    }
    None
}

/// Sends each chunk to one output in turn.
pub struct RoundRobinDataDispatcher<W> {
    pub outputs: Vec<Output<W>>,
    pub cur: usize,
}

impl<W> RoundRobinDataDispatcher<W> {
    /// At least one output, and the cursor names one.
    pub open spec fn wf(&self) -> bool {
        0 < self.outputs@.len() && self.cur < self.outputs@.len()
    }

    pub fn new(outputs: Vec<Output<W>>) -> (r: Self)
        requires
            outputs@.len() > 0,
        ensures
            r.wf(),
            r.outputs@ == outputs@,
            r.cur == 0,
    {
        RoundRobinDataDispatcher { outputs, cur: 0 }
    }

    /// Sends the chunk to the output under the cursor and moves the cursor on.
    pub fn dispatch_data(&mut self, chunk: StreamChunk) -> (r: Vec<Delivery>)
        requires
            old(self).wf(),
            chunk_wf(chunk@),
        ensures
            final(self).wf(),
            final(self).outputs@ == old(self).outputs@,
            final(self).cur == (old(self).cur + 1) % (old(self).outputs@.len() as int),
            deliveries_view(r@) == seq![
                DeliveryV {
                    output: old(self).cur,
                    message: delivered(
                        old(self).outputs@[old(self).cur as int].remote,
                        MessageV::Chunk(chunk@),
                    ),
                },
            ],
    {
        let d = deliver_chunk(self.cur, self.outputs[self.cur].remote, chunk);
        let mut r: Vec<Delivery> = Vec::new();
        r.push(d);
        let n = self.outputs.len();
        self.cur = (self.cur + 1) % n;
        assert(deliveries_view(r@) =~= seq![d@]);
        r
    }

    pub fn dispatch_barrier(&self, barrier: &Barrier) -> (r: Vec<Delivery>)
        ensures
            deliveries_view(r@) == barrier_broadcast(barrier@, self.outputs@.len()),
    {
        broadcast_barrier(&self.outputs, barrier)
    }

    /// Replaces the outputs and keeps the cursor in range; an empty list is refused.
    pub fn set_outputs(&mut self, outputs: Vec<Output<W>>) -> (r: Result<(), StreamError>)
        requires
            old(self).wf(),
        ensures
            final(self).wf(),
            r is Err <==> outputs@.len() == 0,
            r is Err ==> *final(self) == *old(self),
            r is Ok ==> final(self).outputs@ == outputs@ && final(self).cur == if old(self).cur
                < outputs@.len() {
                old(self).cur as int
            } else {
                outputs@.len() - 1
            },
    {
        if outputs.len() == 0 {
            return Err(StreamError::NoOutputLeft);
        }
        let n = outputs.len();
        self.outputs = outputs;
        if self.cur >= n {
            self.cur = n - 1;
        }
        Ok(())
    }

    /// Appends outputs.
    pub fn add_outputs(&mut self, outputs: Vec<Output<W>>)
        requires
            old(self).wf(),
        ensures
            final(self).wf(),
            final(self).outputs@ == old(self).outputs@ + outputs@,
            final(self).cur == old(self).cur,
    {
        let mut outputs = outputs;
        self.outputs.append(&mut outputs);
    }

    /// Drops the outputs of the actors `ids`; removing every output is refused.
    pub fn remove_outputs(&mut self, ids: &Vec<u32>) -> (r: Result<(), StreamError>)
        requires
            old(self).wf(),
        ensures
            final(self).wf(),
            r is Err <==> filter_seq(old(self).outputs@, keep_mask(old(self).outputs@, ids@)).len()
                == 0,
            r is Err ==> *final(self) == *old(self),
            r is Ok ==> final(self).outputs@ == filter_seq(
                old(self).outputs@,
                keep_mask(old(self).outputs@, ids@),
            ),
    {
        if !any_kept(&self.outputs, ids) {
            return Err(StreamError::NoOutputLeft);
        }
        let mut outputs: Vec<Output<W>> = Vec::new();
        core::mem::swap(&mut outputs, &mut self.outputs);
        let kept = retain_outputs(outputs, ids);
        let n = kept.len();
        self.outputs = kept;
        if self.cur >= n {
            self.cur = n - 1;
        }
        Ok(())
    }
}

/// Sends each row to the output of the actor that its virtual node maps to.
pub struct HashDataDispatcher<W> {
    pub outputs: Vec<Output<W>>,
    /// Columns whose values are hashed.
    pub keys: Vec<usize>,
    /// The downstream actor of each virtual node.
    pub hash_mapping: Vec<u32>,
}

impl<W> HashDataDispatcher<W> {
    /// The mapping covers every virtual node.
    pub open spec fn wf(&self) -> bool {
        self.hash_mapping@.len() == VIRTUAL_NODE_COUNT
    }

    pub fn new(outputs: Vec<Output<W>>, keys: Vec<usize>, hash_mapping: Vec<u32>) -> (r: Self)
        requires
            hash_mapping@.len() == VIRTUAL_NODE_COUNT,
        ensures
            r.wf(),
            r.outputs@ == outputs@,
            r.keys@ == keys@,
            r.hash_mapping@ == hash_mapping@,
    {
        HashDataDispatcher { outputs, keys, hash_mapping }
    }

    /// Splits the chunk by virtual node: see [`hash_deliveries`].
    pub fn dispatch_data(&self, chunk: StreamChunk) -> (r: Result<Vec<Delivery>, StreamError>)
        requires
            self.wf(),
            chunk_wf(chunk@),
        ensures
            r is Ok <==> keys_in_range(chunk@, self.keys@) && pairs_wf(chunk@),
            r matches Ok(d) ==> deliveries_view(d@) == hash_deliveries(
                chunk@,
                vnodes_of(chunk@, self.keys@),
                self.hash_mapping@,
                self.outputs@,
                self.outputs@.len(),
            ),
    {
        hash_shuffle(&chunk, &self.keys, &self.hash_mapping, &self.outputs)
    }

    pub fn dispatch_barrier(&self, barrier: &Barrier) -> (r: Vec<Delivery>)
        ensures
            deliveries_view(r@) == barrier_broadcast(barrier@, self.outputs@.len()),
    {
        broadcast_barrier(&self.outputs, barrier)
    }

    pub fn set_outputs(&mut self, outputs: Vec<Output<W>>)
        ensures
            final(self).outputs@ == outputs@,
            final(self).keys == old(self).keys,
            final(self).hash_mapping == old(self).hash_mapping,
    {
        self.outputs = outputs;
    }

    pub fn add_outputs(&mut self, outputs: Vec<Output<W>>)
        ensures
            final(self).outputs@ == old(self).outputs@ + outputs@,
            final(self).keys == old(self).keys,
            final(self).hash_mapping == old(self).hash_mapping,
    {
        let mut outputs = outputs;
        self.outputs.append(&mut outputs);
    }

    pub fn remove_outputs(&mut self, ids: &Vec<u32>)
        ensures
            final(self).outputs@ == filter_seq(old(self).outputs@, keep_mask(old(self).outputs@, ids@)),
            final(self).keys == old(self).keys,
            final(self).hash_mapping == old(self).hash_mapping,
    {
        let mut outputs: Vec<Output<W>> = Vec::new();
        core::mem::swap(&mut outputs, &mut self.outputs);
        self.outputs = retain_outputs(outputs, ids);
    }
}

/// Every output, once, in output order.
pub open spec fn broadcast_deliveries<W>(outputs: Seq<Output<W>>, m: MessageV) -> Seq<DeliveryV> {
    Seq::new(
        outputs.len(),
        |k: int| DeliveryV { output: k as usize, message: delivered(outputs[k].remote, m) },
    )
}

/// Sends every chunk to every output.
pub struct BroadcastDispatcher<W> {
    pub outputs: Vec<Output<W>>,
}

impl<W> BroadcastDispatcher<W> {
    pub open spec fn wf(&self) -> bool {
        ids_unique(self.outputs@)
    }

    /// A dispatcher over `outputs`; two outputs for one actor are refused.
    pub fn new(outputs: Vec<Output<W>>) -> (r: Result<Self, StreamError>)
        ensures
            r is Ok <==> ids_unique(outputs@),
            r matches Ok(d) ==> d.wf() && d.outputs@ == outputs@,
    {
        match first_duplicate(&outputs) {
            Some(id) => Err(StreamError::DuplicateOutput { actor: id }),
            None => Ok(BroadcastDispatcher { outputs }),
        }
    }

    /// A copy of the chunk for every output.
    pub fn dispatch_data(&self, chunk: StreamChunk) -> (r: Vec<Delivery>)
        requires
            chunk_wf(chunk@),
        ensures
            deliveries_view(r@) == broadcast_deliveries(self.outputs@, MessageV::Chunk(chunk@)),
    {
        let mut out: Vec<Delivery> = Vec::new();
        let mut k: usize = 0;
        while k < self.outputs.len()
            invariant
                chunk_wf(chunk@),
                k <= self.outputs@.len(),
                out@.len() == k,
                forall|j: int|
                    0 <= j < k ==> (#[trigger] out@[j])@ == broadcast_deliveries(
                        self.outputs@,
                        MessageV::Chunk(chunk@),
                    )[j],
            decreases self.outputs@.len() - k,
        {
            out.push(deliver_chunk(k, self.outputs[k].remote, chunk.copy()));
            k = k + 1;
        }
        assert(deliveries_view(out@) =~= broadcast_deliveries(self.outputs@, MessageV::Chunk(chunk@)));
        out
    }

    pub fn dispatch_barrier(&self, barrier: &Barrier) -> (r: Vec<Delivery>)
        ensures
            deliveries_view(r@) == barrier_broadcast(barrier@, self.outputs@.len()),
    {
        broadcast_barrier(&self.outputs, barrier)
    }

    /// Replaces the outputs; two outputs for one actor are refused.
    pub fn set_outputs(&mut self, outputs: Vec<Output<W>>) -> (r: Result<(), StreamError>)
        ensures
            r is Ok <==> ids_unique(outputs@),
            r is Ok ==> final(self).outputs@ == outputs@,
            r is Err ==> final(self).outputs@ == old(self).outputs@,
    {
        match first_duplicate(&outputs) {
            Some(id) => Err(StreamError::DuplicateOutput { actor: id }),
            None => {
                self.outputs = outputs;
                Ok(())
            },
        }
    }

    /// Appends outputs; an actor that would have two outputs is refused.
    pub fn add_outputs(&mut self, outputs: Vec<Output<W>>) -> (r: Result<(), StreamError>)
        ensures
            r is Ok <==> ids_unique(old(self).outputs@ + outputs@),
            r is Ok ==> final(self).outputs@ == old(self).outputs@ + outputs@,
            r is Err ==> final(self).outputs@ == old(self).outputs@,
    {
        let n = self.outputs.len();
        let mut outputs = outputs;
        self.outputs.append(&mut outputs);
        match first_duplicate(&self.outputs) {
            Some(id) => {
                let _dropped = self.outputs.split_off(n);
                Err(StreamError::DuplicateOutput { actor: id })
            },
            None => Ok(()),
        }
    }

    pub fn remove_outputs(&mut self, ids: &Vec<u32>)
        requires
            old(self).wf(),
        ensures
            final(self).wf(),
            final(self).outputs@ == filter_seq(old(self).outputs@, keep_mask(old(self).outputs@, ids@)),
    {
        let mut outputs: Vec<Output<W>> = Vec::new();
        core::mem::swap(&mut outputs, &mut self.outputs);
        let ghost before = outputs@;
        self.outputs = retain_outputs(outputs, ids);
        proof {
            lemma_filter_unique(before, keep_mask(before, ids@));
        }
    }
}

/// Filtering keeps actor ids apart.
pub proof fn lemma_filter_unique<W>(s: Seq<Output<W>>, keep: Seq<bool>)
    requires
        ids_unique(s),
        keep.len() == s.len(),
    ensures
        ids_unique(filter_seq(s, keep)),
        forall|i: int|
            0 <= i < filter_seq(s, keep).len() ==> s.contains(#[trigger] filter_seq(s, keep)[i]),
    decreases s.len(),
{
    if s.len() > 0 {
        let p = s.drop_last();
        let kp = keep.take(s.len() - 1);
        lemma_filter_unique(p, kp);
        let fp = filter_seq(p, kp);
        let f = filter_seq(s, keep);
        assert forall|i: int| 0 <= i < f.len() implies s.contains(#[trigger] f[i]) by {
            if i < fp.len() {
                assert(f[i] == fp[i]);
                let j = choose|j: int| 0 <= j < p.len() && p[j] == fp[i];
                assert(s[j] == f[i]);
            } else {
                assert(f[i] == s[s.len() - 1]);
            }
        }
        assert forall|i: int, j: int| 0 <= i < j < f.len() implies f[i].actor_id != f[j].actor_id by {
            if j < fp.len() {
                assert(f[i] == fp[i] && f[j] == fp[j]);
            } else {
                assert(f[j] == s.last());
                assert(f[i] == fp[i]);
                let x = choose|x: int| 0 <= x < p.len() && p[x] == fp[i];
                assert(s[x] == f[i]);
            }
        }
    }
}

/// Sends everything to its one output.
pub struct SimpleDispatcher<W> {
    pub output: Output<W>,
}

impl<W> SimpleDispatcher<W> {
    pub fn new(output: Output<W>) -> (r: Self)
        ensures
            r.output == output,
    {
        SimpleDispatcher { output }
    }

    pub fn dispatch_data(&self, chunk: StreamChunk) -> (r: Vec<Delivery>)
        requires
            chunk_wf(chunk@),
        ensures
            deliveries_view(r@) == seq![
                DeliveryV { output: 0, message: delivered(self.output.remote, MessageV::Chunk(chunk@)) },
            ],
    {
        let d = deliver_chunk(0, self.output.remote, chunk);
        let mut r: Vec<Delivery> = Vec::new();
        r.push(d);
        assert(deliveries_view(r@) =~= seq![d@]);
        r
    }

    pub fn dispatch_barrier(&self, barrier: &Barrier) -> (r: Vec<Delivery>)
        ensures
            deliveries_view(r@) == barrier_broadcast(barrier@, 1),
    {
        let d = Delivery { output: 0, message: Message::Barrier(barrier.copy()) };
        let mut r: Vec<Delivery> = Vec::new();
        r.push(d);
        assert(deliveries_view(r@) =~= barrier_broadcast(barrier@, 1));
        r
    }

    /// Takes the first of `outputs` as the output; an empty list is refused.
    pub fn set_outputs(&mut self, outputs: Vec<Output<W>>) -> (r: Result<(), StreamError>)
        ensures
            r is Err <==> outputs@.len() == 0,
            r is Ok ==> final(self).output == outputs@[0],
            r is Err ==> *final(self) == *old(self),
    {
        if outputs.len() == 0 {
            return Err(StreamError::NoOutputLeft);
        }
        let mut outputs = outputs;
        self.output = outputs.remove(0);
        Ok(())
    }

    /// Like [`Self::set_outputs`]: the dispatcher keeps a single output, so the
    /// first added one replaces it.
    pub fn add_outputs(&mut self, outputs: Vec<Output<W>>) -> (r: Result<(), StreamError>)
        ensures
            r is Err <==> outputs@.len() == 0,
            r is Ok ==> final(self).output == outputs@[0],
            r is Err ==> *final(self) == *old(self),
    {
        self.set_outputs(outputs)
    }

    /// Removing the one output is refused: the actor is stopped instead.
    pub fn remove_outputs(&self, ids: &Vec<u32>) -> (r: Result<(), StreamError>)
        ensures
            r is Err <==> ids@.contains(self.output.actor_id),
    {
        if contains_id(ids, self.output.actor_id) {
            Err(StreamError::NoOutputLeft)
        } else {
            Ok(())
        }
    }
}

/// The dispatcher of an actor, by routing policy.
pub enum DispatcherImpl<W> {
    Hash(HashDataDispatcher<W>),
    Broadcast(BroadcastDispatcher<W>),
    Simple(SimpleDispatcher<W>),
    RoundRobin(RoundRobinDataDispatcher<W>),
}

impl<W> DispatcherImpl<W> {
    pub open spec fn wf(&self) -> bool {
        match self {
            DispatcherImpl::Hash(d) => d.wf(),
            DispatcherImpl::Broadcast(d) => d.wf(),
            DispatcherImpl::Simple(_) => true,
            DispatcherImpl::RoundRobin(d) => d.wf(),
        }
    }

    /// The outputs, in order.
    pub open spec fn outputs_view(&self) -> Seq<Output<W>> {
        match self {
            DispatcherImpl::Hash(d) => d.outputs@,
            DispatcherImpl::Broadcast(d) => d.outputs@,
            DispatcherImpl::Simple(d) => seq![d.output],
            DispatcherImpl::RoundRobin(d) => d.outputs@,
        }
    }

    /// Both are of the same routing policy.
    pub open spec fn same_kind(&self, other: &Self) -> bool {
        match (self, other) {
            (DispatcherImpl::Hash(a), DispatcherImpl::Hash(b)) => a.keys == b.keys && a.hash_mapping
                == b.hash_mapping,
            (DispatcherImpl::Broadcast(_), DispatcherImpl::Broadcast(_)) => true,
            (DispatcherImpl::Simple(_), DispatcherImpl::Simple(_)) => true,
            (DispatcherImpl::RoundRobin(_), DispatcherImpl::RoundRobin(_)) => true,
            _ => false,
        }
    }

    /// The policy takes `outs` as its new outputs.
    pub open spec fn accepts_set(&self, outs: Seq<Output<W>>) -> bool {
        match self {
            DispatcherImpl::Hash(_) => true,
            DispatcherImpl::Broadcast(_) => ids_unique(outs),
            DispatcherImpl::Simple(_) => outs.len() > 0,
            DispatcherImpl::RoundRobin(_) => outs.len() > 0,
        }
    }

    pub open spec fn outputs_after_set(&self, outs: Seq<Output<W>>) -> Seq<Output<W>> {
        match self {
            DispatcherImpl::Simple(_) => seq![outs[0]],
            _ => outs,
        }
    }

    /// The policy takes `outs` as additional outputs.
    pub open spec fn accepts_add(&self, outs: Seq<Output<W>>) -> bool {
        match self {
            DispatcherImpl::Hash(_) => true,
            DispatcherImpl::Broadcast(d) => ids_unique(d.outputs@ + outs),
            DispatcherImpl::Simple(_) => outs.len() > 0,
            DispatcherImpl::RoundRobin(_) => true,
        }
    }

    pub open spec fn outputs_after_add(&self, outs: Seq<Output<W>>) -> Seq<Output<W>> {
        match self {
            DispatcherImpl::Simple(_) => seq![outs[0]],
            _ => self.outputs_view() + outs,
        }
    }

    /// The policy lets the outputs of `ids` go.
    pub open spec fn accepts_remove(&self, ids: Seq<u32>) -> bool {
        match self {
            DispatcherImpl::Simple(d) => !ids.contains(d.output.actor_id),
            DispatcherImpl::RoundRobin(d) => filter_seq(d.outputs@, keep_mask(d.outputs@, ids)).len()
                > 0,
            _ => true,
        }
    }

    pub open spec fn outputs_after_remove(&self, ids: Seq<u32>) -> Seq<Output<W>> {
        match self {
            DispatcherImpl::Simple(_) => self.outputs_view(),
            _ => filter_seq(self.outputs_view(), keep_mask(self.outputs_view(), ids)),
        }
    }

    /// What dispatching `chunk` delivers, if it succeeds.
    pub open spec fn data_deliveries(&self, c: ChunkV) -> Seq<DeliveryV> {
        match self {
            DispatcherImpl::Hash(d) => hash_deliveries(
                c,
                vnodes_of(c, d.keys@),
                d.hash_mapping@,
                d.outputs@,
                d.outputs@.len(),
            ),
            DispatcherImpl::Broadcast(d) => broadcast_deliveries(d.outputs@, MessageV::Chunk(c)),
            DispatcherImpl::Simple(d) => seq![
                DeliveryV { output: 0, message: delivered(d.output.remote, MessageV::Chunk(c)) },
            ],
            DispatcherImpl::RoundRobin(d) => seq![
                DeliveryV {
                    output: d.cur,
                    message: delivered(d.outputs@[d.cur as int].remote, MessageV::Chunk(c)),
                },
            ],
        }
    }

    /// Dispatching `chunk` succeeds.
    pub open spec fn accepts_data(&self, c: ChunkV) -> bool {
        match self {
            DispatcherImpl::Hash(d) => keys_in_range(c, d.keys@) && pairs_wf(c),
            _ => true,
        }
    }

    /// Routes a chunk by the policy.
    pub fn dispatch_data(&mut self, chunk: StreamChunk) -> (r: Result<Vec<Delivery>, StreamError>)
        requires
            old(self).wf(),
            chunk_wf(chunk@),
        ensures
            final(self).wf(),
            final(self).same_kind(old(self)),
            final(self).outputs_view() == old(self).outputs_view(),
            r is Ok <==> old(self).accepts_data(chunk@),
            r matches Ok(d) ==> deliveries_view(d@) == old(self).data_deliveries(chunk@),
    {
        match self {
            DispatcherImpl::Hash(d) => d.dispatch_data(chunk),
            DispatcherImpl::Broadcast(d) => Ok(d.dispatch_data(chunk)),
            DispatcherImpl::Simple(d) => Ok(d.dispatch_data(chunk)),
            DispatcherImpl::RoundRobin(d) => Ok(d.dispatch_data(chunk)),
        }
    }

    /// Sends the barrier to every output.
    pub fn dispatch_barrier(&self, barrier: &Barrier) -> (r: Vec<Delivery>)
        ensures
            deliveries_view(r@) == barrier_broadcast(barrier@, self.outputs_view().len()),
    {
        match self {
            DispatcherImpl::Hash(d) => d.dispatch_barrier(barrier),
            DispatcherImpl::Broadcast(d) => d.dispatch_barrier(barrier),
            DispatcherImpl::Simple(d) => d.dispatch_barrier(barrier),
            DispatcherImpl::RoundRobin(d) => d.dispatch_barrier(barrier),
        }
    }

    pub fn set_outputs(&mut self, outputs: Vec<Output<W>>) -> (r: Result<(), StreamError>)
        requires
            old(self).wf(),
        ensures
            final(self).wf(),
            final(self).same_kind(old(self)),
            r is Ok <==> old(self).accepts_set(outputs@),
            r is Ok ==> final(self).outputs_view() == old(self).outputs_after_set(outputs@),
            r is Err ==> final(self).outputs_view() == old(self).outputs_view(),
    {
        match self {
            DispatcherImpl::Hash(d) => {
                d.set_outputs(outputs);
                Ok(())
            },
            DispatcherImpl::Broadcast(d) => d.set_outputs(outputs),
            DispatcherImpl::Simple(d) => d.set_outputs(outputs),
            DispatcherImpl::RoundRobin(d) => d.set_outputs(outputs),
        }
    }

    pub fn add_outputs(&mut self, outputs: Vec<Output<W>>) -> (r: Result<(), StreamError>)
        requires
            old(self).wf(),
        ensures
            final(self).wf(),
            final(self).same_kind(old(self)),
            r is Ok <==> old(self).accepts_add(outputs@),
            r is Ok ==> final(self).outputs_view() == old(self).outputs_after_add(outputs@),
            r is Err ==> final(self).outputs_view() == old(self).outputs_view(),
    {
        match self {
            DispatcherImpl::Hash(d) => {
                d.add_outputs(outputs);
                Ok(())
            },
            DispatcherImpl::Broadcast(d) => d.add_outputs(outputs),
            DispatcherImpl::Simple(d) => d.add_outputs(outputs),
            DispatcherImpl::RoundRobin(d) => {
                d.add_outputs(outputs);
                Ok(())
            },
        }
    }

    pub fn remove_outputs(&mut self, ids: &Vec<u32>) -> (r: Result<(), StreamError>)
        requires
            old(self).wf(),
        ensures
            final(self).wf(),
            final(self).same_kind(old(self)),
            r is Ok <==> old(self).accepts_remove(ids@),
            r is Ok ==> final(self).outputs_view() == old(self).outputs_after_remove(ids@),
            r is Err ==> final(self).outputs_view() == old(self).outputs_view(),
    {
        match self {
            DispatcherImpl::Hash(d) => {
                d.remove_outputs(ids);
                Ok(())
            },
            DispatcherImpl::Broadcast(d) => {
                d.remove_outputs(ids);
                Ok(())
            },
            DispatcherImpl::Simple(d) => d.remove_outputs(ids),
            DispatcherImpl::RoundRobin(d) => d.remove_outputs(ids),
        }
    }
}

} // verus!
