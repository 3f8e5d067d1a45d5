//! The actor side of the barrier protocol: the dispatch executor that
//! applies configuration mutations around each barrier, and the per-actor
//! checks on the order of messages.
use vstd::prelude::*;
use crate::chunk::{chunk_wf, filter_seq};
use crate::dispatch::keep_mask;
use crate::dispatch::{barrier_broadcast, deliveries_view, Delivery, DeliveryV, DispatcherImpl, Output};
use crate::error::StreamError;
use crate::message::{
    contains_id, find_entry, is_local_address, lookup_entry, ActorInfo, ActorInfoV, Barrier,
    BarrierV, HostAddressV, Message, MessageV, Mutation, MutationV, OutputsEntryV, ExecutorState,
};
use crate::registry::{
    edges_unique, find_pair, lemma_find_pair, retain_mask, writer_of, writer_taken, ChannelPair,
    ChannelRegistry,
};

verus! {

/// The actor ids of a list of actor infos.
pub open spec fn info_ids(infos: Seq<ActorInfoV>) -> Seq<u32> {
    infos.map_values(|i: ActorInfoV| i.actor_id)
}

/// Every named downstream has a host and a writer registered for the edge
/// from `actor`, and none is named twice.
pub open spec fn routes_ready<W, R>(pairs: Seq<ChannelPair<W, R>>, actor: u32, infos: Seq<ActorInfoV>) -> bool {
    &&& forall|k: int| 0 <= k < infos.len() ==> (#[trigger] infos[k]).host is Some
    &&& forall|k: int|
        0 <= k < infos.len() ==> writer_of(pairs, actor, (#[trigger] infos[k]).actor_id) is Some
    &&& forall|k: int, l: int| 0 <= k < l < infos.len() ==> infos[k].actor_id != infos[l].actor_id
}

/// The outputs built for `infos`: each takes the registered writer, and is
/// remote when its host is not this process's address.
pub open spec fn resolved<W, R>(
    pairs: Seq<ChannelPair<W, R>>,
    actor: u32,
    infos: Seq<ActorInfoV>,
    addr: HostAddressV,
) -> Seq<Output<W>> {
    Seq::new(
        infos.len(),
        |k: int|
            Output {
                actor_id: infos[k].actor_id,
                remote: infos[k].host->Some_0 != addr,
                writer: writer_of(pairs, actor, infos[k].actor_id)->Some_0,
            },
    )
}

/// The registry with the writers of the edges from `actor` to `downs` taken.
pub open spec fn writers_taken<W, R>(pairs: Seq<ChannelPair<W, R>>, actor: u32, downs: Seq<u32>) -> Seq<
    ChannelPair<W, R>,
> {
    Seq::new(
        pairs.len(),
        |i: int|
            if pairs[i].up == actor && downs.contains(pairs[i].down) {
                ChannelPair { up: pairs[i].up, down: pairs[i].down, writer: None, reader: pairs[i].reader }
            } else {
                pairs[i]
            },
    )
}

/// Finding an edge only looks at the edges.
pub proof fn lemma_find_pair_edges<W, R>(s: Seq<ChannelPair<W, R>>, t: Seq<ChannelPair<W, R>>, up: u32, down: u32)
    requires
        s.len() == t.len(),
        forall|i: int| 0 <= i < s.len() ==> (#[trigger] s[i]).up == t[i].up && s[i].down == t[i].down,
    ensures
        find_pair(s, up, down) == find_pair(t, up, down),
    decreases s.len(),
{
    if s.len() > 0 {
        lemma_find_pair_edges(s.drop_last(), t.drop_last(), up, down);
    }
}

/// Takes a writer for each of `infos` from the registry and builds the outputs.
fn resolve_outputs<W, R>(ctx: &mut ChannelRegistry<W, R>, actor: u32, infos: &Vec<ActorInfo>) -> (r: Result<
    Vec<Output<W>>,
    StreamError,
>)
    requires
        old(ctx).wf(),
    ensures
        final(ctx).wf(),
        final(ctx).addr == old(ctx).addr,
        r is Ok <==> routes_ready(old(ctx).pairs@, actor, crate::message::infos_view(infos@)),
        r matches Ok(outs) ==> outs@ == resolved(
            old(ctx).pairs@,
            actor,
            crate::message::infos_view(infos@),
            old(ctx).addr@,
        ) && final(ctx).pairs@ == writers_taken(
            old(ctx).pairs@,
            actor,
            info_ids(crate::message::infos_view(infos@)),
        ),
{
    let ghost pairs0 = ctx.pairs@;
    let ghost iv = crate::message::infos_view(infos@);
    let ghost ids = info_ids(iv);
    let mut outs: Vec<Output<W>> = Vec::new();
    let mut k: usize = 0;
    while k < infos.len()
        invariant
            k <= infos@.len(),
            iv == crate::message::infos_view(infos@),
            ids == info_ids(iv),
            ctx.wf(),
            ctx.addr == old(ctx).addr,
            pairs0 == old(ctx).pairs@,
            edges_unique(pairs0),
            ctx.pairs@ == writers_taken(pairs0, actor, ids.take(k as int)),
            forall|j: int| 0 <= j < k ==> (#[trigger] iv[j]).host is Some,
            forall|j: int| 0 <= j < k ==> writer_of(pairs0, actor, (#[trigger] iv[j]).actor_id) is Some,
            forall|j: int, l: int| 0 <= j < l < k ==> iv[j].actor_id != iv[l].actor_id,
            outs@ == resolved(pairs0, actor, iv.take(k as int), old(ctx).addr@),
        decreases infos@.len() - k,
    {
        let info = &infos[k];
        assert(iv[k as int] == info@);
        let ghost cur = ctx.pairs@;
        proof {
            lemma_find_pair_edges(cur, pairs0, actor, info.actor_id);
            lemma_find_pair(pairs0, actor, info.actor_id);
        }
        let host = match &info.host {
            Some(h) => h,
            None => {
                return Err(StreamError::MissingHost { actor: info.actor_id });
            },
        };
        // An earlier info with the same actor already took the writer.
        let mut j: usize = 0;
        while j < k
            invariant
                j <= k < infos@.len(),
                iv == crate::message::infos_view(infos@),
                info == &infos@[k as int],
                ctx.wf(),
                ctx.addr == old(ctx).addr,
                forall|x: int| 0 <= x < j ==> (#[trigger] iv[x]).actor_id != info.actor_id,
            decreases k - j,
        {
            if infos[j].actor_id == info.actor_id {
                assert(iv[j as int].actor_id == iv[k as int].actor_id);
                return Err(StreamError::NoRoute { up: actor, down: info.actor_id });
            }
            j = j + 1;
        }
        assert(!ids.take(k as int).contains(info.actor_id)) by {
            if ids.take(k as int).contains(info.actor_id) {
                let x = choose|x: int| 0 <= x < k && ids.take(k as int)[x] == info.actor_id;
                assert(iv[x].actor_id == info.actor_id);
            }
        }
        proof {
            if let Some(i) = find_pair(pairs0, actor, info.actor_id) {
                assert(cur[i] == pairs0[i]);
            }
        }
        let w = match ctx.take_sender(actor, info.actor_id) {
            Ok(w) => w,
            Err(e) => {
                return Err(e);
            },
        };
        let local = is_local_address(host, &ctx.addr);
        outs.push(Output { actor_id: info.actor_id, remote: !local, writer: w });
        proof {
            let i = find_pair(pairs0, actor, info.actor_id)->Some_0;
            let t1 = ids.take(k + 1);
            let t0 = ids.take(k as int);
            assert(t1 =~= t0.push(info.actor_id));
            let target = writers_taken(pairs0, actor, t1);
            assert forall|x: int| 0 <= x < pairs0.len() implies #[trigger] ctx.pairs@[x] == target[x] by {
                assert(t1.contains(pairs0[x].down) <==> (t0.contains(pairs0[x].down) || pairs0[x].down == info.actor_id)) by {
                    if t1.contains(pairs0[x].down) {
                        let y = choose|y: int| 0 <= y < t1.len() && t1[y] == pairs0[x].down;
                        if y < k {
                            assert(t0[y] == pairs0[x].down);
                        }
                    }
                    if t0.contains(pairs0[x].down) {
                        let y = choose|y: int| 0 <= y < t0.len() && t0[y] == pairs0[x].down;
                        assert(t1[y] == pairs0[x].down);
                    }
                    if pairs0[x].down == info.actor_id {
                        assert(t1[k as int] == info.actor_id);
                    }
                }
                if x != i {
                    assert(!(pairs0[x].up == actor && pairs0[x].down == info.actor_id)) by {
                        if x < i {
                            assert(!(pairs0[x].up == pairs0[i].up && pairs0[x].down == pairs0[i].down));
                        } else {
                            assert(!(pairs0[i].up == pairs0[x].up && pairs0[i].down == pairs0[x].down));
                        }
                    }
                }
            }
            assert(ctx.pairs@ =~= target);
            assert(outs@ =~= resolved(pairs0, actor, iv.take(k + 1), old(ctx).addr@));
        }
        k = k + 1;
    }
    assert(iv.take(k as int) =~= iv);
    assert(ids.take(k as int) =~= ids);
    Ok(outs)
}

/// The entry of a mutation's map for `actor`, if any.
pub open spec fn entry_for(s: Seq<OutputsEntryV>, actor: u32) -> Option<Seq<ActorInfoV>> {
    match find_entry(s, actor) {
        Some(i) => Some(s[i].infos),
        None => None,
    }
}

/// The registry after an `UpdateOutputs` for `actor` kept only the edges to `downs`.
pub open spec fn retained<W, R>(pairs: Seq<ChannelPair<W, R>>, actor: u32, downs: Seq<u32>) -> Seq<
    ChannelPair<W, R>,
> {
    filter_seq(pairs, retain_mask(pairs, actor, downs))
}

/// The pre-barrier change named by `m` for `actor` can be applied.
pub open spec fn pre_ok<W, R>(
    d: DispatcherImpl<W>,
    actor: u32,
    m: Option<MutationV>,
    pairs: Seq<ChannelPair<W, R>>,
    addr: HostAddressV,
) -> bool {
    match m {
        Some(MutationV::UpdateOutputs(s)) if entry_for(s, actor) is Some => {
            let infos = entry_for(s, actor)->Some_0;
            let kept = retained(pairs, actor, info_ids(infos));
            routes_ready(kept, actor, infos) && d.accepts_set(resolved(kept, actor, infos, addr))
        },
        Some(MutationV::AddOutput(s)) if entry_for(s, actor) is Some => {
            let infos = entry_for(s, actor)->Some_0;
            routes_ready(pairs, actor, infos) && d.accepts_add(resolved(pairs, actor, infos, addr))
        },
        _ => true,
    }
}

/// The outputs after the pre-barrier change named by `m` for `actor`.
pub open spec fn pre_outputs<W, R>(
    d: DispatcherImpl<W>,
    actor: u32,
    m: Option<MutationV>,
    pairs: Seq<ChannelPair<W, R>>,
    addr: HostAddressV,
) -> Seq<Output<W>> {
    match m {
        Some(MutationV::UpdateOutputs(s)) if entry_for(s, actor) is Some => {
            let infos = entry_for(s, actor)->Some_0;
            let kept = retained(pairs, actor, info_ids(infos));
            d.outputs_after_set(resolved(kept, actor, infos, addr))
        },
        Some(MutationV::AddOutput(s)) if entry_for(s, actor) is Some => {
            let infos = entry_for(s, actor)->Some_0;
            d.outputs_after_add(resolved(pairs, actor, infos, addr))
        },
        _ => d.outputs_view(),
    }
}

/// The registry after the pre-barrier change named by `m` for `actor`.
pub open spec fn pre_pairs<W, R>(
    actor: u32,
    m: Option<MutationV>,
    pairs: Seq<ChannelPair<W, R>>,
) -> Seq<ChannelPair<W, R>> {
    match m {
        Some(MutationV::UpdateOutputs(s)) if entry_for(s, actor) is Some => {
            let infos = entry_for(s, actor)->Some_0;
            writers_taken(retained(pairs, actor, info_ids(infos)), actor, info_ids(infos))
        },
        Some(MutationV::AddOutput(s)) if entry_for(s, actor) is Some => {
            writers_taken(pairs, actor, info_ids(entry_for(s, actor)->Some_0))
        },
        _ => pairs,
    }
}

/// A dispatcher of the policy of `d` with outputs `outs` lets the outputs of `ids` go.
pub open spec fn remove_ok<W>(d: DispatcherImpl<W>, outs: Seq<Output<W>>, ids: Seq<u32>) -> bool {
    match d {
        DispatcherImpl::Simple(_) => !ids.contains(outs[0].actor_id),
        DispatcherImpl::RoundRobin(_) => filter_seq(outs, keep_mask(outs, ids)).len() > 0,
        _ => true,
    }
}

/// The outputs `outs` of a dispatcher of the policy of `d` once those of `ids` go.
pub open spec fn removed<W>(d: DispatcherImpl<W>, outs: Seq<Output<W>>, ids: Seq<u32>) -> Seq<Output<W>> {
    match d {
        DispatcherImpl::Simple(_) => outs,
        _ => filter_seq(outs, keep_mask(outs, ids)),
    }
}

/// The post-barrier change named by `m` for `actor` can be applied to outputs `outs`.
pub open spec fn post_ok<W>(d: DispatcherImpl<W>, outs: Seq<Output<W>>, actor: u32, m: Option<MutationV>) -> bool {
    match m {
        Some(MutationV::Stop(ids)) if !ids.contains(actor) => remove_ok(d, outs, ids),
        _ => true,
    }
}

/// The outputs `outs` after the post-barrier change named by `m` for `actor`.
pub open spec fn post_outputs<W>(d: DispatcherImpl<W>, outs: Seq<Output<W>>, actor: u32, m: Option<MutationV>) -> Seq<
    Output<W>,
> {
    match m {
        Some(MutationV::Stop(ids)) if !ids.contains(actor) => removed(d, outs, ids),
        _ => outs,
    }
}

/// The removal rules depend on the policy alone.
pub proof fn lemma_same_kind_removal<W>(d1: DispatcherImpl<W>, d2: DispatcherImpl<W>, outs: Seq<Output<W>>, actor: u32, m: Option<MutationV>)
    requires
        d1.same_kind(&d2),
    ensures
        post_ok(d1, outs, actor, m) == post_ok(d2, outs, actor, m),
        post_outputs(d1, outs, actor, m) == post_outputs(d2, outs, actor, m),
{
}

/// What dispatching barrier `b` does for `actor`: it succeeds exactly when
/// the pre-barrier change and then the post-barrier change can be applied;
/// the barrier then goes once to each output present after the pre-barrier
/// change, and the outputs and registry are those the two changes give.
pub open spec fn barrier_dispatched<W, R>(
    d: DispatcherImpl<W>,
    actor: u32,
    b: BarrierV,
    pairs: Seq<ChannelPair<W, R>>,
    addr: HostAddressV,
    r: Result<Vec<Delivery>, StreamError>,
    outs_after: Seq<Output<W>>,
    pairs_after: Seq<ChannelPair<W, R>>,
) -> bool {
    let o1 = pre_outputs(d, actor, b.mutation, pairs, addr);
    &&& r is Ok <==> pre_ok(d, actor, b.mutation, pairs, addr) && post_ok(d, o1, actor, b.mutation)
    &&& r matches Ok(ds) ==> deliveries_view(ds@) == barrier_broadcast(b, o1.len())
    &&& r is Ok ==> outs_after == post_outputs(d, o1, actor, b.mutation) && pairs_after == pre_pairs(
        actor,
        b.mutation,
        pairs,
    )
}

/// Routes the messages of one actor to its downstream actors and applies the
/// configuration changes that barriers carry.
pub struct DispatchExecutor<W> {
    pub actor_id: u32,
    pub inner: DispatcherImpl<W>,
}

impl<W> DispatchExecutor<W> {
    pub fn new(inner: DispatcherImpl<W>, actor_id: u32) -> (r: Self)
        ensures
            r.actor_id == actor_id,
            r.inner == inner,
    {
        DispatchExecutor { actor_id, inner }
    }

    /// Before a barrier is forwarded: an `UpdateOutputs` naming this actor
    /// drops the channels to actors it no longer names and replaces the
    /// outputs; an `AddOutput` naming this actor adds outputs.
    pub fn pre_mutate_outputs<R>(&mut self, mutation: &Option<Mutation>, ctx: &mut ChannelRegistry<W, R>) -> (r: Result<(), StreamError>)
        requires
            old(self).inner.wf(),
            old(ctx).wf(),
        ensures
            final(self).inner.wf(),
            final(ctx).wf(),
            final(self).actor_id == old(self).actor_id,
            final(self).inner.same_kind(&old(self).inner),
            final(ctx).addr == old(ctx).addr,
            r is Ok <==> pre_ok(
                old(self).inner,
                old(self).actor_id,
                crate::message::mutation_view(*mutation),
                old(ctx).pairs@,
                old(ctx).addr@,
            ),
            r is Ok ==> final(self).inner.outputs_view() == pre_outputs(
                old(self).inner,
                old(self).actor_id,
                crate::message::mutation_view(*mutation),
                old(ctx).pairs@,
                old(ctx).addr@,
            ) && final(ctx).pairs@ == pre_pairs(
                old(self).actor_id,
                crate::message::mutation_view(*mutation),
                old(ctx).pairs@,
            ),
            r is Err ==> final(self).inner.outputs_view() == old(self).inner.outputs_view(),
    {
        let actor = self.actor_id;
        match mutation {
            Some(Mutation::UpdateOutputs(entries)) => {
                match lookup_entry(entries, actor) {
                    Some(i) => {
                        let infos = &entries[i].infos;
                        assert(crate::message::entries_view(entries@)[i as int].infos
                            == crate::message::infos_view(infos@));
                        let mut downs: Vec<u32> = Vec::new();
                        let mut k: usize = 0;
                        while k < infos.len()
                            invariant
                                k <= infos@.len(),
                                downs@ == info_ids(crate::message::infos_view(infos@)).take(k as int),
                            decreases infos@.len() - k,
                        {
                            downs.push(infos[k].actor_id);
                            k = k + 1;
                            assert(downs@ =~= info_ids(crate::message::infos_view(infos@)).take(k as int));
                        }
                        assert(downs@ =~= info_ids(crate::message::infos_view(infos@)));
                        ctx.retain(actor, &downs);
                        let outs = match resolve_outputs(ctx, actor, infos) {
                            Ok(o) => o,
                            Err(e) => {
                                return Err(e);
                            },
                        };
                        self.inner.set_outputs(outs)
                    },
                    None => Ok(()),
                }
            },
            Some(Mutation::AddOutput(entries)) => {
                match lookup_entry(entries, actor) {
                    Some(i) => {
                        let infos = &entries[i].infos;
                        assert(crate::message::entries_view(entries@)[i as int].infos
                            == crate::message::infos_view(infos@));
                        let outs = match resolve_outputs(ctx, actor, infos) {
                            Ok(o) => o,
                            Err(e) => {
                                return Err(e);
                            },
                        };
                        self.inner.add_outputs(outs)
                    },
                    None => Ok(()),
                }
            },
            _ => Ok(()),
        }
    }

    /// After a barrier is forwarded: a `Stop` that does not name this actor
    /// removes the outputs of the stopped actors.
    pub fn post_mutate_outputs(&mut self, mutation: &Option<Mutation>) -> (r: Result<(), StreamError>)
        requires
            old(self).inner.wf(),
        ensures
            final(self).inner.wf(),
            final(self).actor_id == old(self).actor_id,
            final(self).inner.same_kind(&old(self).inner),
            r is Ok <==> post_ok(
                old(self).inner,
                old(self).inner.outputs_view(),
                old(self).actor_id,
                crate::message::mutation_view(*mutation),
            ),
            r is Ok ==> final(self).inner.outputs_view() == post_outputs(
                old(self).inner,
                old(self).inner.outputs_view(),
                old(self).actor_id,
                crate::message::mutation_view(*mutation),
            ),
            r is Err ==> final(self).inner.outputs_view() == old(self).inner.outputs_view(),
    {
        match mutation {
            Some(Mutation::Stop(ids)) => {
                if !contains_id(ids, self.actor_id) {
                    self.inner.remove_outputs(ids)
                } else {
                    Ok(())
                }
            },
            _ => Ok(()),
        }
    }
}

/// A message whose chunk, if any, is well formed.
pub open spec fn message_wf(m: MessageV) -> bool {
    match m {
        MessageV::Chunk(c) => chunk_wf(c),
        MessageV::Barrier(_) => true,
    }
}

impl<W> DispatchExecutor<W> {
    /// Routes one message: a chunk by the dispatcher's policy; a barrier to
    /// every output, between the mutations that it carries.
    pub fn dispatch<R>(&mut self, msg: Message, ctx: &mut ChannelRegistry<W, R>) -> (r: Result<
        Vec<Delivery>,
        StreamError,
    >)
        requires
            old(self).inner.wf(),
            old(ctx).wf(),
            message_wf(msg@),
        ensures
            final(self).inner.wf(),
            final(ctx).wf(),
            final(self).actor_id == old(self).actor_id,
            final(self).inner.same_kind(&old(self).inner),
            final(ctx).addr == old(ctx).addr,
            msg@ matches MessageV::Chunk(c) ==> {
                &&& r is Ok <==> old(self).inner.accepts_data(c)
                &&& r matches Ok(d) ==> deliveries_view(d@) == old(self).inner.data_deliveries(c)
                &&& final(ctx).pairs@ == old(ctx).pairs@
                &&& final(self).inner.outputs_view() == old(self).inner.outputs_view()
            },
            msg@ matches MessageV::Barrier(b) ==> {
                &&& r matches Ok(d) ==> deliveries_view(d@) == barrier_broadcast(b, d@.len())
                &&& b.mutation is None ==> r is Ok && final(ctx).pairs@ == old(ctx).pairs@
                    && final(self).inner.outputs_view() == old(self).inner.outputs_view() && (r matches Ok(
                    d,
                ) ==> d@.len() == old(self).inner.outputs_view().len())
                &&& barrier_dispatched(old(self).inner, old(self).actor_id, b, old(ctx).pairs@, old(ctx).addr@,
                    r, final(self).inner.outputs_view(), final(ctx).pairs@)
            },
    {
        let ghost m = msg@;
        match msg {
            Message::Chunk(chunk) => {
                assert(m == MessageV::Chunk(chunk@));
                self.inner.dispatch_data(chunk)
            },
            Message::Barrier(barrier) => {
                assert(m == MessageV::Barrier(barrier@));
                match self.pre_mutate_outputs(&barrier.mutation, ctx) {
                    Ok(()) => {},
                    Err(e) => {
                        return Err(e);
                    },
                }
                let d = self.inner.dispatch_barrier(&barrier);
                assert(deliveries_view(d@).len() == d@.len());
                proof {
                    lemma_same_kind_removal(self.inner, old(self).inner, self.inner.outputs_view(),
                        self.actor_id, barrier@.mutation);
                }
                match self.post_mutate_outputs(&barrier.mutation) {
                    Ok(()) => {},
                    Err(e) => {
                        return Err(e);
                    },
                }
                Ok(d)
            },
        }
    }
}

impl ExecutorState {
    /// On the first message: a barrier activates the operator at its
    /// current epoch and is returned; anything else is a protocol violation.
    /// Once active, nothing changes and `None` is returned.
    pub fn try_init(&mut self, msg: &Message) -> (r: Result<Option<Barrier>, StreamError>)
        ensures
            *old(self) is Active ==> r == Ok::<Option<Barrier>, StreamError>(None) && *final(self) == *old(self),
            *old(self) is Init ==> match msg@ {
                MessageV::Chunk(_) => r == Err::<Option<Barrier>, StreamError>(
                    StreamError::FirstMessageNotBarrier,
                ) && *final(self) == *old(self),
                MessageV::Barrier(b) => (r matches Ok(Some(x)) && x@ == b) && *final(self)
                    == ExecutorState::Active(b.epoch.curr),
            },
    {
        match self {
            ExecutorState::Init => match msg {
                Message::Barrier(b) => {
                    *self = ExecutorState::Active(b.epoch.curr);
                    Ok(Some(b.copy()))
                },
                Message::Chunk(_) => Err(StreamError::FirstMessageNotBarrier),
            },
            ExecutorState::Active(_) => Ok(None),
        }
    }
}

/// One actor at its output: checks the order of the messages it forwards and
/// hands them to its dispatch executor.
pub struct Actor<W> {
    pub state: ExecutorState,
    pub dispatch: DispatchExecutor<W>,
    /// A barrier that stops this actor was forwarded: the actor exits.
    pub stopped: bool,
}

impl<W> Actor<W> {
    pub fn new(dispatch: DispatchExecutor<W>) -> (r: Self)
        ensures
            r.state == ExecutorState::Init,
            r.dispatch == dispatch,
            !r.stopped,
    {
        Actor { state: ExecutorState::Init, dispatch, stopped: false }
    }

    /// Forwards one message. The first must be a barrier, and each barrier
    /// must open a later epoch than the one before.
    pub fn step<R>(&mut self, msg: Message, ctx: &mut ChannelRegistry<W, R>) -> (r: Result<
        Vec<Delivery>,
        StreamError,
    >)
        requires
            old(self).dispatch.inner.wf(),
            old(ctx).wf(),
            message_wf(msg@),
            !old(self).stopped,
        ensures
            final(self).dispatch.inner.wf(),
            final(ctx).wf(),
            final(self).dispatch.actor_id == old(self).dispatch.actor_id,
            old(self).state is Init && msg@ is Chunk ==> r == Err::<Vec<Delivery>, StreamError>(
                StreamError::FirstMessageNotBarrier,
            ) && final(ctx).pairs@ == old(ctx).pairs@,
            msg@ matches MessageV::Barrier(b) ==> {
                &&& (old(self).state matches ExecutorState::Active(e) && b.epoch.curr <= e) ==> r is Err
                    && final(ctx).pairs@ == old(ctx).pairs@
                &&& r matches Ok(d) ==> {
                    &&& final(self).state == ExecutorState::Active(b.epoch.curr)
                    &&& (old(self).state matches ExecutorState::Active(e) ==> e < b.epoch.curr)
                    &&& deliveries_view(d@) == barrier_broadcast(b, d@.len())
                    &&& final(self).stopped == (b.mutation matches Some(MutationV::Stop(ids))
                        && ids.contains(old(self).dispatch.actor_id))
                }
            },
            msg@ matches MessageV::Barrier(b) ==> (!(old(self).state matches ExecutorState::Active(e)
                && b.epoch.curr <= e) ==> barrier_dispatched(
                old(self).dispatch.inner,
                old(self).dispatch.actor_id,
                b,
                old(ctx).pairs@,
                old(ctx).addr@,
                r,
                final(self).dispatch.inner.outputs_view(),
                final(ctx).pairs@,
            )),
            msg@ matches MessageV::Chunk(c) ==> (r matches Ok(d) ==> {
                &&& final(self).state == old(self).state
                &&& !final(self).stopped
                &&& deliveries_view(d@) == old(self).dispatch.inner.data_deliveries(c)
            }),
            old(self).state is Active && msg@ is Chunk ==> (r is Ok <==> old(
                self,
            ).dispatch.inner.accepts_data(msg@->Chunk_0)) && final(ctx).pairs@ == old(ctx).pairs@
                && final(self).dispatch.inner.outputs_view() == old(self).dispatch.inner.outputs_view(),
    {
        match (&self.state, &msg) {
            (ExecutorState::Init, Message::Chunk(_)) => {
                return Err(StreamError::FirstMessageNotBarrier);
            },
            (ExecutorState::Active(e), Message::Barrier(b)) => {
                if b.epoch.curr <= *e {
                    return Err(
                        StreamError::EpochNotIncreasing { last: *e, prev: b.epoch.prev, curr: b.epoch.curr },
                    );
                }
            },
            _ => {},
        }
        match msg {
            Message::Barrier(b) => {
                let curr = b.epoch.curr;
                let stops = b.is_to_stop_actor(self.dispatch.actor_id);
                let d = self.dispatch.dispatch(Message::Barrier(b), ctx);
                if d.is_ok() {
                    self.state = ExecutorState::Active(curr);
                    self.stopped = stops;
                }
                d
            },
            Message::Chunk(c) => self.dispatch.dispatch(Message::Chunk(c), ctx),
        }
    }
}

} // verus!
