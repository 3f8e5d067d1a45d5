//! Properties that relate several operations of the streaming core.
use vstd::prelude::*;
use crate::chunk::{compacted, count_true, filter_seq, lemma_count_step, lemma_filter_len, row_visible, ChunkV};
use crate::dispatch::{
    barrier_broadcast, hash_chunk, hash_deliveries, hash_visibility, pairs_wf, pair_ok_at, shuffled_ops,
    vnodes_of, DeliveryV, Output,
};
use crate::message::{BarrierV, MessageV};
use crate::dispatch::{delivered, DispatcherImpl};
use crate::types::Op;
use crate::actor::{entry_for, info_ids, pre_outputs, pre_pairs, resolved, retained, routes_ready, writers_taken};
use crate::message::{HostAddressV, MutationV};
use crate::registry::{find_pair, lemma_filter_edges_unique, lemma_find_pair, retain_mask, ChannelPair, edges_unique};

verus! {

/// The rows of `out` keep update pairs together at row `i`.
pub open spec fn pair_kept_at(out: ChunkV, i: int) -> bool {
    &&& (row_visible(out, i) && out.ops[i] == Op::UpdateDelete) ==> i + 1 < out.ops.len() && row_visible(
        out,
        i + 1,
    ) && out.ops[i + 1] == Op::UpdateInsert
    &&& (row_visible(out, i) && out.ops[i] == Op::UpdateInsert) ==> i >= 1 && row_visible(out, i - 1)
        && out.ops[i - 1] == Op::UpdateDelete
}

proof fn lemma_pair_kept_at(c: ChunkV, vn: Seq<usize>, mapping: Seq<u32>, actor: u32, i: int)
    requires
        pairs_wf(c),
        vn.len() == c.ops.len(),
        0 <= i < c.ops.len(),
    ensures
        pair_kept_at(hash_chunk(c, vn, mapping, actor), i),
{
    assert(pair_ok_at(c, i));
    if i + 1 < c.ops.len() {
        assert(pair_ok_at(c, i + 1));
    }
    if i >= 1 {
        assert(pair_ok_at(c, i - 1));
    }
}

/// On each output of a hash shuffle, a visible `UpdateDelete` is directly
/// followed by a visible `UpdateInsert`, and a visible `UpdateInsert`
/// directly follows a visible `UpdateDelete`: an update pair whose rows go
/// to different outputs has become a `Delete` and an `Insert`.
pub proof fn lemma_hash_keeps_update_pairs(c: ChunkV, vn: Seq<usize>, mapping: Seq<u32>, actor: u32)
    requires
        pairs_wf(c),
        vn.len() == c.ops.len(),
    ensures
        forall|i: int|
            0 <= i < c.ops.len() ==> #[trigger] pair_kept_at(hash_chunk(c, vn, mapping, actor), i),
{
    assert forall|i: int| 0 <= i < c.ops.len() implies #[trigger] pair_kept_at(
        hash_chunk(c, vn, mapping, actor),
        i,
    ) by {
        lemma_pair_kept_at(c, vn, mapping, actor, i);
    }
}

/// Dispatching the same chunk again with the same keys, mapping and outputs
/// delivers the same chunks to the same outputs.
pub proof fn lemma_hash_dispatch_repeatable<W>(
    c1: ChunkV,
    c2: ChunkV,
    keys: Seq<usize>,
    mapping: Seq<u32>,
    outputs: Seq<Output<W>>,
    d1: Seq<DeliveryV>,
    d2: Seq<DeliveryV>,
)
    requires
        c1 == c2,
        d1 == hash_deliveries(c1, vnodes_of(c1, keys), mapping, outputs, outputs.len()),
        d2 == hash_deliveries(c2, vnodes_of(c2, keys), mapping, outputs, outputs.len()),
    ensures
        d1 == d2,
{
}

/// A barrier goes to every output exactly once, and every output gets the
/// same barrier.
pub proof fn lemma_barrier_aligned(b: BarrierV, n: nat)
    requires
        n <= usize::MAX,
    ensures
        barrier_broadcast(b, n).len() == n,
        forall|k: int|
            0 <= k < n ==> (#[trigger] barrier_broadcast(b, n)[k]).output == k && barrier_broadcast(b, n)[k].message
                == MessageV::Barrier(b),
        forall|j: int, k: int|
            0 <= j < n && 0 <= k < n ==> (#[trigger] barrier_broadcast(b, n)[j]).message == (
            #[trigger] barrier_broadcast(b, n)[k]).message,
{
}

/// A kept entry stands in the filtered sequence after the kept entries before it.
pub proof fn lemma_filter_index<A>(s: Seq<A>, keep: Seq<bool>, i: int)
    requires
        s.len() == keep.len(),
        0 <= i < s.len(),
        keep[i],
    ensures
        count_true(keep.take(i)) < filter_seq(s, keep).len(),
        filter_seq(s, keep)[count_true(keep.take(i)) as int] == s[i],
    decreases s.len(),
{
    let n = s.len();
    let p = s.drop_last();
    let kp = keep.take(n - 1);
    lemma_filter_len(p, kp);
    if i == n - 1 {
        assert(kp =~= keep.take(i));
    } else {
        lemma_filter_index(p, kp, i);
        assert(kp.take(i) =~= keep.take(i));
    }
}

/// Every entry of the filtered sequence comes from a kept entry.
pub proof fn lemma_filter_source<A>(s: Seq<A>, keep: Seq<bool>, j: int)
    requires
        s.len() == keep.len(),
        0 <= j < filter_seq(s, keep).len(),
    ensures
        exists|i: int| 0 <= i < s.len() && keep[i] && count_true(keep.take(i)) == j,
    decreases s.len(),
{
    let n = s.len();
    let p = s.drop_last();
    let kp = keep.take(n - 1);
    lemma_filter_len(p, kp);
    if j < filter_seq(p, kp).len() {
        lemma_filter_source(p, kp, j);
        let i = choose|i: int| 0 <= i < p.len() && kp[i] && count_true(kp.take(i)) == j;
        assert(kp.take(i) =~= keep.take(i));
        assert(keep[i] && count_true(keep.take(i)) == j);
    } else {
        assert(keep[n - 1]);
        assert(kp =~= keep.take(n - 1));
        assert(count_true(keep.take(n - 1)) == j);
    }
}

/// Visible update pairs of `ops` are adjacent at row `i`.
pub open spec fn seq_pair_kept(ops: Seq<Op>, vis: Seq<bool>, i: int) -> bool {
    &&& (vis[i] && ops[i] == Op::UpdateDelete) ==> i + 1 < ops.len() && vis[i + 1] && ops[i + 1]
        == Op::UpdateInsert
    &&& (vis[i] && ops[i] == Op::UpdateInsert) ==> i >= 1 && vis[i - 1] && ops[i - 1] == Op::UpdateDelete
}

/// Adjacent visible update pairs stay adjacent once the hidden rows are removed.
pub proof fn lemma_filter_keeps_pairs(ops: Seq<Op>, vis: Seq<bool>, j: int)
    requires
        ops.len() == vis.len(),
        forall|i: int| 0 <= i < ops.len() ==> #[trigger] seq_pair_kept(ops, vis, i),
        0 <= j < filter_seq(ops, vis).len(),
    ensures
        ({
            let f = filter_seq(ops, vis);
            &&& f[j] == Op::UpdateDelete ==> j + 1 < f.len() && f[j + 1] == Op::UpdateInsert
            &&& f[j] == Op::UpdateInsert ==> j >= 1 && f[j - 1] == Op::UpdateDelete
        }),
{
    lemma_filter_source(ops, vis, j);
    let i = choose|i: int| 0 <= i < ops.len() && vis[i] && count_true(vis.take(i)) == j;
    lemma_filter_index(ops, vis, i);
    assert(seq_pair_kept(ops, vis, i));
    if ops[i] == Op::UpdateDelete {
        lemma_count_step(vis, i);
        lemma_filter_index(ops, vis, i + 1);
    }
    if ops[i] == Op::UpdateInsert {
        lemma_count_step(vis, i - 1);
        lemma_filter_index(ops, vis, i - 1);
    }
}

proof fn lemma_seq_pair_kept_at(c: ChunkV, vn: Seq<usize>, mapping: Seq<u32>, actor: u32, i: int)
    requires
        pairs_wf(c),
        vn.len() == c.ops.len(),
        0 <= i < c.ops.len(),
    ensures
        seq_pair_kept(shuffled_ops(c, vn), hash_visibility(c, vn, mapping, actor), i),
{
    lemma_pair_kept_at(c, vn, mapping, actor, i);
    let out = hash_chunk(c, vn, mapping, actor);
    assert(out.ops == shuffled_ops(c, vn));
    assert(out.visibility == Some(hash_visibility(c, vn, mapping, actor)));
    assert(row_visible(out, i) == hash_visibility(c, vn, mapping, actor)[i]);
    if i + 1 < c.ops.len() {
        assert(row_visible(out, i + 1) == hash_visibility(c, vn, mapping, actor)[i + 1]);
    }
    if i >= 1 {
        assert(row_visible(out, i - 1) == hash_visibility(c, vn, mapping, actor)[i - 1]);
    }
}

proof fn lemma_compacted_hash_ops(c: ChunkV, vn: Seq<usize>, mapping: Seq<u32>, actor: u32)
    ensures
        compacted(hash_chunk(c, vn, mapping, actor)).ops == filter_seq(
            shuffled_ops(c, vn),
            hash_visibility(c, vn, mapping, actor),
        ),
{
}

/// In `ops`, the row `j` keeps update pairs adjacent.
pub open spec fn pair_adjacent_at(ops: Seq<Op>, j: int) -> bool {
    &&& ops[j] == Op::UpdateDelete ==> j + 1 < ops.len() && ops[j + 1] == Op::UpdateInsert
    &&& ops[j] == Op::UpdateInsert ==> j >= 1 && ops[j - 1] == Op::UpdateDelete
}

/// Once the hidden rows are removed, an `UpdateDelete` is directly followed
/// by an `UpdateInsert` and an `UpdateInsert` directly follows an `UpdateDelete`.
pub proof fn lemma_filtered_pairs(o: Seq<Op>, vis: Seq<bool>)
    requires
        o.len() == vis.len(),
        forall|i: int| 0 <= i < o.len() ==> #[trigger] seq_pair_kept(o, vis, i),
    ensures
        forall|j: int| 0 <= j < filter_seq(o, vis).len() ==> #[trigger] pair_adjacent_at(filter_seq(o, vis), j),
{
    assert forall|j: int| 0 <= j < filter_seq(o, vis).len() implies #[trigger] pair_adjacent_at(
        filter_seq(o, vis),
        j,
    ) by {
        lemma_filter_keeps_pairs(o, vis, j);
    }
}

/// A remote output receives its hash chunk without hidden rows; there too an
/// `UpdateDelete` is directly followed by an `UpdateInsert`, and an
/// `UpdateInsert` directly follows an `UpdateDelete`.
pub proof fn lemma_compacted_hash_keeps_update_pairs(c: ChunkV, vn: Seq<usize>, mapping: Seq<u32>, actor: u32)
    requires
        pairs_wf(c),
        vn.len() == c.ops.len(),
    ensures
        forall|j: int|
            0 <= j < compacted(hash_chunk(c, vn, mapping, actor)).ops.len() ==> #[trigger] pair_adjacent_at(
                compacted(hash_chunk(c, vn, mapping, actor)).ops,
                j,
            ),
{
    let o = shuffled_ops(c, vn);
    let vis = hash_visibility(c, vn, mapping, actor);
    assert forall|i: int| 0 <= i < o.len() implies #[trigger] seq_pair_kept(o, vis, i) by {
        lemma_seq_pair_kept_at(c, vn, mapping, actor, i);
    }
    lemma_filtered_pairs(o, vis);
    lemma_compacted_hash_ops(c, vn, mapping, actor);
}

/// In every row of `ch`, a visible `UpdateDelete` is directly followed by a
/// visible `UpdateInsert`, and a visible `UpdateInsert` directly follows a
/// visible `UpdateDelete`.
pub open spec fn update_pairs_adjacent(ch: ChunkV) -> bool {
    forall|i: int| 0 <= i < ch.ops.len() ==> #[trigger] pair_kept_at(ch, i)
}

/// The delivery is a chunk that keeps update pairs adjacent.
pub open spec fn adjacent_chunk_delivery(d: DeliveryV) -> bool {
    d.message matches MessageV::Chunk(ch) && update_pairs_adjacent(ch)
}

proof fn lemma_delivered_chunk_keeps_pairs(c: ChunkV, vn: Seq<usize>, mapping: Seq<u32>, actor: u32, remote: bool)
    requires
        pairs_wf(c),
        vn.len() == c.ops.len(),
    ensures
        delivered(remote, MessageV::Chunk(hash_chunk(c, vn, mapping, actor))) matches MessageV::Chunk(ch)
            && update_pairs_adjacent(ch),
{
    lemma_hash_keeps_update_pairs(c, vn, mapping, actor);
    if remote {
        lemma_compacted_hash_keeps_update_pairs(c, vn, mapping, actor);
        let ch = compacted(hash_chunk(c, vn, mapping, actor));
        assert(ch.visibility is None);
        assert forall|i: int| 0 <= i < ch.ops.len() implies #[trigger] pair_kept_at(ch, i) by {
            assert(pair_adjacent_at(ch.ops, i));
        }
    }
}

/// Every chunk that a hash dispatch delivers, to a local output as it is or
/// to a remote one without hidden rows, keeps update pairs adjacent.
pub proof fn lemma_hash_deliveries_keep_update_pairs<W>(
    c: ChunkV,
    keys: Seq<usize>,
    mapping: Seq<u32>,
    outputs: Seq<Output<W>>,
    n: nat,
)
    requires
        pairs_wf(c),
        n <= outputs.len(),
    ensures
        forall|k: int|
            0 <= k < hash_deliveries(c, vnodes_of(c, keys), mapping, outputs, n).len() ==> adjacent_chunk_delivery(
                #[trigger] hash_deliveries(c, vnodes_of(c, keys), mapping, outputs, n)[k],
            ),
    decreases n,
{
    if n > 0 {
        let vn = vnodes_of(c, keys);
        lemma_hash_deliveries_keep_update_pairs(c, keys, mapping, outputs, (n - 1) as nat);
        lemma_delivered_chunk_keeps_pairs(c, vn, mapping, outputs[n - 1].actor_id, outputs[n - 1].remote);
        let prev = hash_deliveries(c, vn, mapping, outputs, (n - 1) as nat);
        let all = hash_deliveries(c, vn, mapping, outputs, n);
        assert forall|k: int| 0 <= k < all.len() implies adjacent_chunk_delivery(#[trigger] all[k]) by {
            if k < prev.len() {
                assert(all[k] == prev[k]);
            }
        }
    }
}

/// Hash dispatchers with the same keys, mapping and outputs deliver the
/// same chunks for the same input chunk, however often it is dispatched.
pub proof fn lemma_hash_dispatchers_agree<W>(d1: DispatcherImpl<W>, d2: DispatcherImpl<W>, c1: ChunkV, c2: ChunkV)
    requires
        d1 is Hash,
        d1.same_kind(&d2),
        d1.outputs_view() == d2.outputs_view(),
        c1 == c2,
    ensures
        d1.accepts_data(c1) == d2.accepts_data(c2),
        d1.data_deliveries(c1) == d2.data_deliveries(c2),
{
}

/// Hash deliveries depend on the outputs only through their actor ids and
/// whether they are remote: the writers play no part.
pub proof fn lemma_hash_deliveries_ignore_writers<W>(
    c: ChunkV,
    vn: Seq<usize>,
    mapping: Seq<u32>,
    o1: Seq<Output<W>>,
    o2: Seq<Output<W>>,
    n: nat,
)
    requires
        o1.len() == o2.len(),
        n <= o1.len(),
        forall|k: int| 0 <= k < o1.len() ==> (#[trigger] o1[k]).actor_id == o2[k].actor_id && o1[k].remote == o2[k].remote,
    ensures
        hash_deliveries(c, vn, mapping, o1, n) == hash_deliveries(c, vn, mapping, o2, n),
    decreases n,
{
    if n > 0 {
        lemma_hash_deliveries_ignore_writers(c, vn, mapping, o1, o2, (n - 1) as nat);
        assert(o1[n - 1].actor_id == o2[n - 1].actor_id);
    }
}

/// Hash dispatchers with the same keys and mapping, whose outputs name the
/// same actors in the same order and agree on which are remote, deliver the
/// same chunks to the same output positions for equal chunks, however often
/// the chunk is dispatched.
pub proof fn lemma_hash_dispatch_same_routes<W>(
    d1: DispatcherImpl<W>,
    d2: DispatcherImpl<W>,
    c1: ChunkV,
    c2: ChunkV,
)
    requires
        d1 is Hash,
        d1.same_kind(&d2),
        d1.outputs_view().len() == d2.outputs_view().len(),
        forall|k: int|
            0 <= k < d1.outputs_view().len() ==> (#[trigger] d1.outputs_view()[k]).actor_id
                == d2.outputs_view()[k].actor_id && d1.outputs_view()[k].remote == d2.outputs_view()[k].remote,
        c1 == c2,
    ensures
        d1.accepts_data(c1) == d2.accepts_data(c2),
        d1.data_deliveries(c1) == d2.data_deliveries(c2),
{
    let h1 = d1->Hash_0;
    let h2 = d2->Hash_0;
    lemma_hash_deliveries_ignore_writers(
        c1,
        vnodes_of(c1, h1.keys@),
        h1.hash_mapping@,
        h1.outputs@,
        h2.outputs@,
        h1.outputs@.len(),
    );
}

/// The registry `pairs` has a channel for edge `(up, down)`.
pub open spec fn has_edge<W, R>(pairs: Seq<ChannelPair<W, R>>, up: u32, down: u32) -> bool {
    exists|i: int| 0 <= i < pairs.len() && (#[trigger] pairs[i]).up == up && pairs[i].down == down
}

/// After an `UpdateOutputs` naming `actor` with downstreams `infos` is
/// applied, the registry's edges from `actor` go exactly to the named
/// downstreams, and every edge from another actor is kept as it was.
pub proof fn lemma_update_outputs_edges<W, R>(
    pairs: Seq<ChannelPair<W, R>>,
    actor: u32,
    s: Seq<crate::message::OutputsEntryV>,
)
    requires
        edges_unique(pairs),
        entry_for(s, actor) is Some,
        routes_ready(
            retained(pairs, actor, info_ids(entry_for(s, actor)->Some_0)),
            actor,
            entry_for(s, actor)->Some_0,
        ),
    ensures
        ({
            let infos = entry_for(s, actor)->Some_0;
            let after = pre_pairs(actor, Some(MutationV::UpdateOutputs(s)), pairs);
            &&& forall|i: int|
                0 <= i < after.len() && (#[trigger] after[i]).up == actor ==> info_ids(infos).contains(after[i].down)
            &&& forall|k: int| 0 <= k < infos.len() ==> has_edge(after, actor, (#[trigger] infos[k]).actor_id)
            &&& forall|i: int|
                0 <= i < pairs.len() && (#[trigger] pairs[i]).up != actor ==> after.contains(pairs[i])
        }),
{
    let infos = entry_for(s, actor)->Some_0;
    let ids = info_ids(infos);
    let mask = retain_mask(pairs, actor, ids);
    let kept = retained(pairs, actor, ids);
    let after = pre_pairs(actor, Some(MutationV::UpdateOutputs(s)), pairs);
    assert(after == writers_taken(kept, actor, ids));
    lemma_filter_edges_unique(pairs, mask);
    assert forall|i: int| 0 <= i < after.len() && (#[trigger] after[i]).up == actor implies ids.contains(after[i].down) by {
        lemma_filter_source(pairs, mask, i);
        let j = choose|j: int| 0 <= j < pairs.len() && mask[j] && count_true(mask.take(j)) == i;
        lemma_filter_index(pairs, mask, j);
        assert(kept[i] == pairs[j]);
    }
    assert forall|k: int| 0 <= k < infos.len() implies has_edge(after, actor, (#[trigger] infos[k]).actor_id) by {
        assert(crate::registry::writer_of(kept, actor, infos[k].actor_id) is Some);
        lemma_find_pair(kept, actor, infos[k].actor_id);
        let i = find_pair(kept, actor, infos[k].actor_id)->Some_0;
        assert(after[i].up == actor && after[i].down == infos[k].actor_id);
    }
    assert forall|i: int| 0 <= i < pairs.len() && (#[trigger] pairs[i]).up != actor implies after.contains(pairs[i]) by {
        assert(mask[i]);
        lemma_filter_index(pairs, mask, i);
        let j = count_true(mask.take(i)) as int;
        assert(kept[j] == pairs[i]);
        assert(after[j] == pairs[i]);
    }
}

/// An `AddOutput` naming `actor` keeps every registry edge, taking the
/// writers of the named downstreams, and, but for the simple dispatcher
/// which keeps one output, appends one output per named downstream.
pub proof fn lemma_add_output_accumulates<W, R>(
    d: DispatcherImpl<W>,
    pairs: Seq<ChannelPair<W, R>>,
    actor: u32,
    s: Seq<crate::message::OutputsEntryV>,
    addr: HostAddressV,
)
    requires
        entry_for(s, actor) is Some,
    ensures
        ({
            let infos = entry_for(s, actor)->Some_0;
            let m = Some(MutationV::AddOutput(s));
            let after = pre_pairs(actor, m, pairs);
            &&& after.len() == pairs.len()
            &&& forall|i: int|
                0 <= i < pairs.len() ==> (#[trigger] after[i]).up == pairs[i].up && after[i].down == pairs[i].down
            &&& !(d is Simple) ==> pre_outputs(d, actor, m, pairs, addr) == d.outputs_view() + resolved(
                pairs,
                actor,
                infos,
                addr,
            )
            &&& !(d is Simple) ==> pre_outputs(d, actor, m, pairs, addr).len() == d.outputs_view().len()
                + infos.len()
        }),
{
}

} // verus!
