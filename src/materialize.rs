//! Materialization: an update stream kept as a keyed table in the state store.
use vstd::prelude::*;
use crate::chunk::{chunk_wf, row_visible, ChunkV, StreamChunk};
use crate::codec::{enc_row, put_row};
use crate::actor::message_wf;
use crate::error::StreamError;
use crate::hash::keys_in_range;
use crate::message::{Barrier, Message, MessageV};
use crate::state_store::{writes_view, KeyWriteV, MemoryStateStore, WriteBatch, records_view, log_after};
use crate::types::{copy_datum, datum_view, datums_view, Datum, DatumV, Op};

verus! {

/// The values of row `i`, one per column.
pub open spec fn row_of(c: ChunkV, i: int) -> Seq<DatumV> {
    Seq::new(c.columns.len(), |j: int| c.columns[j].values[i])
}

/// The values of row `i` in the key columns, in key order.
pub open spec fn key_of(c: ChunkV, keys: Seq<usize>, i: int) -> Seq<DatumV> {
    Seq::new(keys.len(), |k: int| c.columns[keys[k] as int].values[i])
}

/// The table write of row `i`: inserts put the row under its key, deletes remove the key.
pub open spec fn row_write(c: ChunkV, keys: Seq<usize>, i: int) -> KeyWriteV {
    KeyWriteV {
        key: enc_row(key_of(c, keys, i)),
        value: match c.ops[i] {
            Op::Insert | Op::UpdateInsert => Some(enc_row(row_of(c, i))),
            Op::Delete | Op::UpdateDelete => None,
        },
    }
}

/// The table writes of the visible rows among the first `n`, in row order.
pub open spec fn table_writes(c: ChunkV, keys: Seq<usize>, n: nat) -> Seq<KeyWriteV>
    decreases n,
{
    if n == 0 {
        Seq::empty()
    } else {
        table_writes(c, keys, (n - 1) as nat) + if row_visible(c, n - 1) {
            seq![row_write(c, keys, n - 1)]
        } else {
            Seq::empty()
        }
    }
}

/// The values of row `i`.
fn row_at(chunk: &StreamChunk, i: usize) -> (r: Vec<Datum>)
    requires
        chunk_wf(chunk@),
        i < chunk@.ops.len(),
    ensures
        datums_view(r@) == row_of(chunk@, i as int),
{
    let mut out: Vec<Datum> = Vec::new();
    let mut j: usize = 0;
    while j < chunk.columns.len()
        invariant
            chunk_wf(chunk@),
            i < chunk@.ops.len(),
            j <= chunk@.columns.len(),
            out@.len() == j,
            forall|x: int| 0 <= x < j ==> datum_view(#[trigger] out@[x]) == chunk@.columns[x].values[i as int],
        decreases chunk@.columns.len() - j,
    {
        let a = chunk.columns[j].array_ref();
        assert(a@ == chunk@.columns[j as int]);
        out.push(copy_datum(&a.values[i]));
        j = j + 1;
    }
    assert(datums_view(out@) =~= row_of(chunk@, i as int));
    out
}

/// The values of row `i` in the key columns.
fn key_at(chunk: &StreamChunk, keys: &Vec<usize>, i: usize) -> (r: Vec<Datum>)
    requires
        chunk_wf(chunk@),
        keys_in_range(chunk@, keys@),
        i < chunk@.ops.len(),
    ensures
        datums_view(r@) == key_of(chunk@, keys@, i as int),
{
    let mut out: Vec<Datum> = Vec::new();
    let mut k: usize = 0;
    while k < keys.len()
        invariant
            chunk_wf(chunk@),
            keys_in_range(chunk@, keys@),
            i < chunk@.ops.len(),
            k <= keys@.len(),
            out@.len() == k,
            forall|x: int|
                0 <= x < k ==> datum_view(#[trigger] out@[x]) == chunk@.columns[keys@[x] as int].values[i as int],
        decreases keys@.len() - k,
    {
        let col = keys[k];
        assert((keys@[k as int] as int) < chunk@.columns.len());
        let a = chunk.columns[col].array_ref();
        assert(a@ == chunk@.columns[col as int]);
        out.push(copy_datum(&a.values[i]));
        k = k + 1;
    }
    assert(datums_view(out@) =~= key_of(chunk@, keys@, i as int));
    out
}

/// Keeps an update stream as a table keyed by the arrange columns.
pub struct MaterializeExecutor {
    /// Key columns of the table.
    pub arrange_columns: Vec<usize>,
    /// Writes not yet committed.
    pub pending: WriteBatch,
}

impl MaterializeExecutor {
    pub fn new(arrange_columns: Vec<usize>) -> (r: Self)
        ensures
            r.arrange_columns@ == arrange_columns@,
            r.pending.writes@.len() == 0,
    {
        MaterializeExecutor { arrange_columns, pending: WriteBatch::new() }
    }

    /// Adds the table writes of the chunk's visible rows to the pending batch.
    pub fn apply_chunk(&mut self, chunk: &StreamChunk) -> (r: Result<(), StreamError>)
        requires
            chunk_wf(chunk@),
        ensures
            final(self).arrange_columns == old(self).arrange_columns,
            r is Ok <==> keys_in_range(chunk@, old(self).arrange_columns@),
            r is Ok ==> writes_view(final(self).pending.writes@) == writes_view(old(self).pending.writes@)
                + table_writes(chunk@, old(self).arrange_columns@, chunk@.ops.len()),
            r is Err ==> writes_view(final(self).pending.writes@) == writes_view(old(self).pending.writes@),
    {
        let mut k: usize = 0;
        while k < self.arrange_columns.len()
            invariant
                k <= self.arrange_columns@.len(),
                forall|j: int| 0 <= j < k ==> (#[trigger] self.arrange_columns@[j] as int) < chunk@.columns.len(),
            decreases self.arrange_columns@.len() - k,
        {
            if self.arrange_columns[k] >= chunk.columns.len() {
                return Err(StreamError::ColumnOutOfRange { index: self.arrange_columns[k] });
            }
            k = k + 1;
        }
        let ghost w0 = writes_view(self.pending.writes@);
        let n = chunk.ops.len();
        let mut i: usize = 0;
        while i < n
            invariant
                n == chunk@.ops.len(),
                chunk_wf(chunk@),
                keys_in_range(chunk@, self.arrange_columns@),
                self.arrange_columns == old(self).arrange_columns,
                i <= n,
                writes_view(self.pending.writes@) == w0 + table_writes(chunk@, self.arrange_columns@, i as nat),
            decreases n - i,
        {
            let ghost before = writes_view(self.pending.writes@);
            if chunk.is_visible(i) {
                let mut key: Vec<u8> = Vec::new();
                let krow = key_at(chunk, &self.arrange_columns, i);
                put_row(&mut key, &krow);
                assert(key@ =~= enc_row(key_of(chunk@, self.arrange_columns@, i as int)));
                match chunk.ops[i] {
                    Op::Insert | Op::UpdateInsert => {
                        let mut value: Vec<u8> = Vec::new();
                        let row = row_at(chunk, i);
                        put_row(&mut value, &row);
                        assert(value@ =~= enc_row(row_of(chunk@, i as int)));
                        self.pending.put(key, value);
                    },
                    Op::Delete | Op::UpdateDelete => {
                        self.pending.delete(key);
                    },
                }
                assert(writes_view(self.pending.writes@) =~= before.push(row_write(chunk@, self.arrange_columns@, i as int)));
            }
            i = i + 1;
            assert(writes_view(self.pending.writes@) =~= w0 + table_writes(chunk@, self.arrange_columns@, i as nat));
        }
        Ok(())
    }

    /// Commits the pending writes at the barrier's closing epoch `prev`,
    /// if there are any.
    pub fn on_barrier(&mut self, store: &mut MemoryStateStore, barrier: &Barrier) -> (r: Result<(), StreamError>)
        ensures
            final(self).arrange_columns == old(self).arrange_columns,
            old(self).pending.writes@.len() == 0 ==> r is Ok && *final(store) == *old(store)
                && final(self).pending.writes@.len() == 0,
            old(self).pending.writes@.len() > 0 ==> {
                &&& r is Err <==> old(store).ingested@.len() > 0 && barrier.epoch.prev <= old(store).ingested@.last()
                &&& r is Ok ==> final(store).ingested@ == old(store).ingested@.push(barrier.epoch.prev)
                    && records_view(final(store).log@) == log_after(
                    records_view(old(store).log@),
                    writes_view(old(self).pending.writes@),
                    barrier.epoch.prev,
                ) && final(self).pending.writes@.len() == 0
            },
    {
        if self.pending.is_empty() {
            return Ok(());
        }
        let mut batch = WriteBatch::new();
        core::mem::swap(&mut batch, &mut self.pending);
        store.ingest(batch, barrier.epoch.prev)
    }

    /// Handles one message: a chunk is added to the table and forwarded
    /// unchanged; a barrier commits the table's writes and is forwarded.
    pub fn step(&mut self, store: &mut MemoryStateStore, msg: Message) -> (r: Result<Message, StreamError>)
        requires
            msg@ matches MessageV::Chunk(c) ==> chunk_wf(c),
        ensures
            final(self).arrange_columns == old(self).arrange_columns,
            r matches Ok(m) ==> m@ == msg@,
            msg@ matches MessageV::Chunk(c) ==> {
                &&& r is Ok <==> keys_in_range(c, old(self).arrange_columns@)
                &&& r is Ok ==> writes_view(final(self).pending.writes@) == writes_view(old(self).pending.writes@)
                    + table_writes(c, old(self).arrange_columns@, c.ops.len())
                &&& r is Err ==> writes_view(final(self).pending.writes@) == writes_view(old(self).pending.writes@)
                &&& *final(store) == *old(store)
            },
            msg@ matches MessageV::Barrier(b) ==> {
                &&& old(self).pending.writes@.len() == 0 ==> r is Ok && *final(store) == *old(store)
                    && final(self).pending.writes@.len() == 0
                &&& old(self).pending.writes@.len() > 0 ==> {
                    &&& r is Err <==> old(store).ingested@.len() > 0 && b.epoch.prev <= old(store).ingested@.last()
                    &&& r is Ok ==> final(store).ingested@ == old(store).ingested@.push(b.epoch.prev)
                        && records_view(final(store).log@) == log_after(
                        records_view(old(store).log@),
                        writes_view(old(self).pending.writes@),
                        b.epoch.prev,
                    ) && final(self).pending.writes@.len() == 0
                }
            },
    {
        let ghost m0 = msg@;
        match msg {
            Message::Chunk(c) => {
                assert(m0 == MessageV::Chunk(c@));
                match self.apply_chunk(&c) {
                    Ok(()) => Ok(Message::Chunk(c)),
                    Err(e) => Err(e),
                }
            },
            Message::Barrier(b) => {
                assert(m0 == MessageV::Barrier(b@));
                match self.on_barrier(store, &b) {
                    Ok(()) => Ok(Message::Barrier(b)),
                    Err(e) => Err(e),
                }
            },
        }
    }
}

/// The epochs at which the table commits while handling `msgs`, with
/// writes pending at the start exactly when `pending`: the closing epoch
/// `prev` of each barrier that finds writes pending.
pub open spec fn table_commits(msgs: Seq<MessageV>, keys: Seq<usize>, pending: bool) -> Seq<u64>
    decreases msgs.len(),
{
    if msgs.len() == 0 {
        Seq::empty()
    } else {
        match msgs[0] {
            MessageV::Chunk(c) => table_commits(
                msgs.drop_first(),
                keys,
                pending || table_writes(c, keys, c.ops.len()).len() > 0,
            ),
            MessageV::Barrier(b) => (if pending {
                seq![b.epoch.prev]
            } else {
                Seq::empty()
            }) + table_commits(msgs.drop_first(), keys, false),
        }
    }
}

pub open spec fn messages_view(s: Seq<Message>) -> Seq<MessageV> {
    s.map_values(|m: Message| m@)
}

impl MaterializeExecutor {
    /// Handles the messages in order and returns what it forwards, which is
    /// each message unchanged. When every step succeeds, the store committed
    /// exactly at the closing epoch of each barrier that found writes pending.
    pub fn run(&mut self, store: &mut MemoryStateStore, msgs: Vec<Message>) -> (r: Result<Vec<Message>, StreamError>)
        requires
            forall|i: int| 0 <= i < msgs@.len() ==> message_wf((#[trigger] msgs@[i])@),
        ensures
            final(self).arrange_columns == old(self).arrange_columns,
            r matches Ok(out) ==> messages_view(out@) == messages_view(msgs@),
            r is Ok ==> final(store).ingested@ == old(store).ingested@ + table_commits(
                messages_view(msgs@),
                old(self).arrange_columns@,
                old(self).pending.writes@.len() > 0,
            ),
    {
        let ghost all = messages_view(msgs@);
        let ghost keys = self.arrange_columns@;
        let n0 = msgs.len();
        assert(all.subrange(0, all.len() as int) =~= all);
        assert(messages_view(Seq::<Message>::empty()) =~= all.take(0));
        let mut rest = msgs;
        let mut out: Vec<Message> = Vec::new();
        let mut k: usize = 0;
        while rest.len() > 0
            invariant
                n0 == all.len(),
                self.arrange_columns == old(self).arrange_columns,
                self.arrange_columns@ == keys,
                keys == old(self).arrange_columns@,
                k <= all.len(),
                messages_view(rest@) == all.subrange(k as int, all.len() as int),
                forall|i: int| 0 <= i < rest@.len() ==> message_wf((#[trigger] rest@[i])@),
                messages_view(out@) == all.take(k as int),
                old(store).ingested@ + table_commits(all, keys, old(self).pending.writes@.len() > 0) == store.ingested@
                    + table_commits(all.subrange(k as int, all.len() as int), keys, self.pending.writes@.len() > 0),
            decreases rest@.len(),
        {
            let ghost before = rest@;
            let ghost tail = all.subrange(k as int, all.len() as int);
            let ghost pend = self.pending.writes@.len() > 0;
            let ghost ing = store.ingested@;
            let m = rest.remove(0);
            assert(m@ == messages_view(before)[0]);
            assert(m@ == tail[0]);
            assert(tail.drop_first() =~= all.subrange(k + 1, all.len() as int));
            assert(message_wf(before[0]@));
            let ghost mv = m@;
            let fwd = match self.step(store, m) {
                Ok(x) => x,
                Err(e) => {
                    return Err(e);
                },
            };
            proof {
                match mv {
                    MessageV::Chunk(c) => {
                        assert(writes_view(self.pending.writes@).len() > 0 <==> pend || table_writes(
                            c,
                            keys,
                            c.ops.len(),
                        ).len() > 0);
                    },
                    MessageV::Barrier(b) => {
                        if !pend {
                            assert(ing + Seq::<u64>::empty() =~= ing);
                        } else {
                            assert(ing.push(b.epoch.prev) =~= ing + seq![b.epoch.prev]);
                        }
                        assert(old(store).ingested@ + table_commits(all, keys, old(self).pending.writes@.len() > 0)
                            =~= store.ingested@ + table_commits(all.subrange(k + 1, all.len() as int), keys, false));
                    },
                }
            }
            let ghost out_before = out@;
            assert(fwd@ == mv);
            out.push(fwd);
            assert(messages_view(out@) =~= messages_view(out_before).push(mv));
            assert(all[k as int] == mv);
            assert(all.take(k + 1) =~= all.take(k as int).push(all[k as int]));
            k = k + 1;
            assert(rest@ =~= before.subrange(1, before.len() as int));
            assert(messages_view(rest@) =~= all.subrange(k as int, all.len() as int));
            assert(messages_view(out@) =~= all.take(k as int));
            assert forall|i: int| 0 <= i < rest@.len() implies message_wf((#[trigger] rest@[i])@) by {
                assert(rest@[i] == before[i + 1]);
            }
        }
        assert(all.take(k as int) =~= all);
        assert(all.subrange(k as int, all.len() as int) =~= Seq::<MessageV>::empty());
        assert(store.ingested@ + Seq::<u64>::empty() =~= store.ingested@);
        Ok(out)
    }
}

} // verus!
