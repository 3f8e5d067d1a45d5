//! A versioned in-memory key-value store: write batches commit atomically at
//! an epoch, and reads at an epoch see the commits at or below it.
use vstd::prelude::*;
use crate::error::StreamError;

verus! {

/// Whether two byte strings are equal.
pub fn bytes_eq(a: &Vec<u8>, b: &Vec<u8>) -> (r: bool)
    ensures
        r == (a@ == b@),
{
    if a.len() != b.len() {
        return false;
    }
    let mut i: usize = 0;
    while i < a.len()
        invariant
            a@.len() == b@.len(),
            i <= a@.len(),
            forall|j: int| 0 <= j < i ==> a@[j] == b@[j],
        decreases a@.len() - i,
    {
        if a[i] != b[i] {
            return false;
        }
        i = i + 1;
    }
    assert(a@ =~= b@);
    true
}

pub open spec fn value_view(v: Option<Vec<u8>>) -> Option<Seq<u8>> {
    match v {
        Some(b) => Some(b@),
        None => None,
    }
}

/// One write: a put of `value`, or a delete where `value` is `None`.
pub struct KeyWrite {
    pub key: Vec<u8>,
    pub value: Option<Vec<u8>>,
}

pub struct KeyWriteV {
    pub key: Seq<u8>,
    pub value: Option<Seq<u8>>,
}

impl View for KeyWrite {
    type V = KeyWriteV;

    open spec fn view(&self) -> KeyWriteV {
        KeyWriteV { key: self.key@, value: value_view(self.value) }
    }
}

pub open spec fn writes_view(s: Seq<KeyWrite>) -> Seq<KeyWriteV> {
    s.map_values(|w: KeyWrite| w@)
}

/// Writes collected for one atomic commit, in order.
pub struct WriteBatch {
    pub writes: Vec<KeyWrite>,
}

impl WriteBatch {
    pub fn new() -> (r: WriteBatch)
        ensures
            r.writes@.len() == 0,
    {
        WriteBatch { writes: Vec::new() }
    }

    pub fn put(&mut self, key: Vec<u8>, value: Vec<u8>)
        ensures
            writes_view(final(self).writes@) == writes_view(old(self).writes@).push(
                KeyWriteV { key: key@, value: Some(value@) },
            ),
    {
        let w = KeyWrite { key, value: Some(value) };
        self.writes.push(w);
        assert(writes_view(self.writes@) =~= writes_view(old(self).writes@).push(w@));
    }

    pub fn delete(&mut self, key: Vec<u8>)
        ensures
            writes_view(final(self).writes@) == writes_view(old(self).writes@).push(
                KeyWriteV { key: key@, value: None },
            ),
    {
        let w = KeyWrite { key, value: None };
        self.writes.push(w);
        assert(writes_view(self.writes@) =~= writes_view(old(self).writes@).push(w@));
    }

    pub fn is_empty(&self) -> (r: bool)
        ensures
            r == (self.writes@.len() == 0),
    {
        self.writes.len() == 0
    }
}

/// One committed write and the epoch of its commit.
pub struct Record {
    pub epoch: u64,
    pub write: KeyWrite,
}

pub struct RecordV {
    pub epoch: u64,
    pub write: KeyWriteV,
}

impl View for Record {
    type V = RecordV;

    open spec fn view(&self) -> RecordV {
        RecordV { epoch: self.epoch, write: self.write@ }
    }
}

pub open spec fn records_view(s: Seq<Record>) -> Seq<RecordV> {
    s.map_values(|r: Record| r@)
}

/// The value of `key` as seen at `epoch`: the last write to it committed at
/// or below `epoch`; absent if there is none or it was a delete.
pub open spec fn read_at(log: Seq<RecordV>, key: Seq<u8>, epoch: u64) -> Option<Seq<u8>>
    decreases log.len(),
{
    if log.len() == 0 {
        None
    } else if log.last().epoch <= epoch && log.last().write.key == key {
        log.last().write.value
    } else {
        read_at(log.drop_last(), key, epoch)
    }
}

/// The log of the store after a batch was committed at `epoch`.
pub open spec fn log_after(log: Seq<RecordV>, writes: Seq<KeyWriteV>, epoch: u64) -> Seq<RecordV> {
    log + writes.map_values(|w: KeyWriteV| RecordV { epoch, write: w })
}

/// The committed writes, in commit order.
pub struct MemoryStateStore {
    pub log: Vec<Record>,
    /// Epoch of every commit, in order.
    pub ingested: Vec<u64>,
}

impl MemoryStateStore {
    pub fn new() -> (r: MemoryStateStore)
        ensures
            r.log@.len() == 0,
            r.ingested@.len() == 0,
    {
        MemoryStateStore { log: Vec::new(), ingested: Vec::new() }
    }

    pub fn start_write_batch(&self) -> (r: WriteBatch)
        ensures
            r.writes@.len() == 0,
    {
        WriteBatch::new()
    }

    /// Commits the batch at `epoch`, which must be above the last commit.
    pub fn ingest(&mut self, batch: WriteBatch, epoch: u64) -> (r: Result<(), StreamError>)
        ensures
            r is Err <==> old(self).ingested@.len() > 0 && epoch <= old(self).ingested@.last(),
            r is Err ==> *final(self) == *old(self),
            r is Ok ==> final(self).ingested@ == old(self).ingested@.push(epoch) && records_view(
                final(self).log@,
            ) == log_after(records_view(old(self).log@), writes_view(batch.writes@), epoch),
    {
        let n = self.ingested.len();
        if n > 0 && epoch <= self.ingested[n - 1] {
            return Err(StreamError::StaleEpoch { epoch, last: self.ingested[n - 1] });
        }
        let ghost log0 = records_view(self.log@);
        let ghost ws = writes_view(batch.writes@);
        let mut rest = batch.writes;
        let n0 = rest.len();
        let mut k: usize = 0;
        while rest.len() > 0
            invariant
                n0 == ws.len(),
                k <= ws.len(),
                writes_view(rest@) == ws.subrange(k as int, ws.len() as int),
                records_view(self.log@) == log_after(log0, ws.take(k as int), epoch),
                self.ingested == old(self).ingested,
            decreases rest@.len(),
        {
            let ghost before = rest@;
            let w = rest.remove(0);
            assert(writes_view(before).len() == before.len());
            assert(w@ == writes_view(before)[0]);
            assert(writes_view(before)[0] == ws.subrange(k as int, ws.len() as int)[0]);
            assert(w@ == ws[k as int]);
            let ghost log_before = self.log@;
            let rec = Record { epoch, write: w };
            let ghost rv = rec@;
            self.log.push(rec);
            assert(records_view(self.log@) =~= records_view(log_before).push(rv));
            assert(ws.take(k + 1) =~= ws.take(k as int).push(ws[k as int]));
            let ghost f = |x: KeyWriteV| RecordV { epoch, write: x };
            assert(ws.take(k + 1).map_values(f) =~= ws.take(k as int).map_values(f).push(rv));
            assert(records_view(self.log@) =~= log_after(log0, ws.take(k + 1), epoch));
            k = k + 1;
            assert(rest@ =~= before.subrange(1, before.len() as int));
            assert forall|j: int| 0 <= j < rest@.len() implies #[trigger] writes_view(rest@)[j] == ws[k + j] by {
                assert(writes_view(rest@)[j] == before[j + 1]@);
                assert(writes_view(before)[j + 1] == ws.subrange(k - 1, ws.len() as int)[j + 1]);
            }
            assert(writes_view(rest@) =~= ws.subrange(k as int, ws.len() as int));
        }
        assert(ws.take(k as int) =~= ws);
        self.ingested.push(epoch);
        Ok(())
    }

    /// The value of `key` as seen at `epoch`.
    pub fn point_read(&self, key: &Vec<u8>, epoch: u64) -> (r: Option<Vec<u8>>)
        ensures
            value_view(r) == read_at(records_view(self.log@), key@, epoch),
    {
        let ghost log = records_view(self.log@);
        let mut i: usize = self.log.len();
        assert(log.take(i as int) =~= log);
        while i > 0
            invariant
                i <= self.log@.len(),
                log == records_view(self.log@),
                read_at(log, key@, epoch) == read_at(log.take(i as int), key@, epoch),
            decreases i,
        {
            let rec = &self.log[i - 1];
            assert(log.take(i as int).last() == rec@);
            assert(log.take(i as int).drop_last() =~= log.take(i - 1));
            if rec.epoch <= epoch && bytes_eq(&rec.write.key, key) {
                return match &rec.write.value {
                    Some(v) => Some(v.clone()),
                    None => None,
                };
            }
            i = i - 1;
        }
        None
    }
}

/// A read at or above the epoch of a commit sees the commit's last write to
/// the key; a key that the commit does not write reads as before it.
pub proof fn lemma_read_sees_commit(log: Seq<RecordV>, writes: Seq<KeyWriteV>, e: u64, key: Seq<u8>, epoch: u64)
    requires
        e <= epoch,
    ensures
        forall|j: int|
            0 <= j < writes.len() && (#[trigger] writes[j]).key == key && (forall|l: int|
                j < l < writes.len() ==> writes[l].key != key) ==> read_at(log_after(log, writes, e), key, epoch)
                == writes[j].value,
        (forall|j: int| 0 <= j < writes.len() ==> (#[trigger] writes[j]).key != key) ==> read_at(
            log_after(log, writes, e),
            key,
            epoch,
        ) == read_at(log, key, epoch),
    decreases writes.len(),
{
    if writes.len() > 0 {
        let p = writes.drop_last();
        lemma_read_sees_commit(log, p, e, key, epoch);
        let after = log_after(log, writes, e);
        assert(after.drop_last() =~= log_after(log, p, e));
        assert(after.last() == (RecordV { epoch: e, write: writes.last() }));
        assert forall|j: int|
            0 <= j < writes.len() && (#[trigger] writes[j]).key == key && (forall|l: int|
                j < l < writes.len() ==> writes[l].key != key) implies read_at(after, key, epoch) == writes[j].value by {
            if j < writes.len() - 1 {
                assert(writes[writes.len() - 1].key != key);
                assert(p[j] == writes[j]);
                assert(forall|l: int| j < l < p.len() ==> p[l] == writes[l]);
            }
        }
        if forall|j: int| 0 <= j < writes.len() ==> (#[trigger] writes[j]).key != key {
            assert(writes[writes.len() - 1].key != key);
            assert(forall|j: int| 0 <= j < p.len() ==> p[j] == writes[j]);
        }
    }
}

} // verus!
