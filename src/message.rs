//! Epochs, barriers with their configuration mutations, and stream messages.
use vstd::prelude::*;
use crate::chunk::{ChunkV, StreamChunk};

verus! {

/// The reserved epoch that no barrier carries.
pub const INVALID_EPOCH: u64 = 0;

/// An epoch boundary: the epoch that closes and the one that opens.
#[derive(Clone, Copy, Debug, PartialEq, Eq, Structural)]
pub struct Epoch {
    pub curr: u64,
    pub prev: u64,
}

impl Epoch {
    pub fn new(curr: u64, prev: u64) -> (r: Epoch)
        requires
            curr > prev,
        ensures
            r == (Epoch { curr, prev }),
    {
        Epoch { curr, prev }
    }

    /// The next epoch: both ends moved up by one.
    pub fn inc(&self) -> (r: Epoch)
        requires
            self.curr < u64::MAX,
            self.prev < u64::MAX,
        ensures
            r == (Epoch { curr: (self.curr + 1) as u64, prev: (self.prev + 1) as u64 }),
    {
        Epoch { curr: self.curr + 1, prev: self.prev + 1 }
    }

    /// The epoch that opens `curr` and closes `curr - 1`.
    pub fn new_test_epoch(curr: u64) -> (r: Epoch)
        requires
            curr > 0,
        ensures
            r == (Epoch { curr, prev: (curr - 1) as u64 }),
    {
        Epoch::new(curr, curr - 1)
    }
}

impl Default for Epoch {
    /// The first epoch after the reserved one.
    fn default() -> (r: Epoch)
        ensures
            r == (Epoch { curr: 1, prev: INVALID_EPOCH }),
    {
        Epoch { curr: 1, prev: INVALID_EPOCH }
    }
}

/// Network address of a host.
#[derive(Debug)]
pub struct HostAddress {
    pub host: String,
    pub port: i32,
}

/// The mathematical value of a [`HostAddress`].
pub struct HostAddressV {
    pub host: Seq<char>,
    pub port: i32,
}

impl View for HostAddress {
    type V = HostAddressV;

    open spec fn view(&self) -> HostAddressV {
        HostAddressV { host: self.host@, port: self.port }
    }
}

impl HostAddress {
    pub fn copy(&self) -> (r: HostAddress)
        ensures
            r@ == self@,
    {
        HostAddress { host: self.host.clone(), port: self.port }
    }
}

/// Two addresses name the same host and port.
pub fn is_local_address(a: &HostAddress, b: &HostAddress) -> (r: bool)
    ensures
        r == (a@ == b@),
{
    let same = a.host == b.host && a.port == b.port;
    proof {
        if a.host@ == b.host@ && a.port == b.port {
            assert(a@ == b@);
        }
    }
    same
}

/// A downstream actor and the host it runs on.
#[derive(Debug)]
pub struct ActorInfo {
    pub actor_id: u32,
    pub host: Option<HostAddress>,
}

pub struct ActorInfoV {
    pub actor_id: u32,
    pub host: Option<HostAddressV>,
}

impl View for ActorInfo {
    type V = ActorInfoV;

    open spec fn view(&self) -> ActorInfoV {
        ActorInfoV {
            actor_id: self.actor_id,
            host: match self.host {
                Some(h) => Some(h@),
                None => None,
            },
        }
    }
}

impl ActorInfo {
    pub fn copy(&self) -> (r: ActorInfo)
        ensures
            r@ == self@,
    {
        ActorInfo {
            actor_id: self.actor_id,
            host: match &self.host {
                Some(h) => Some(h.copy()),
                None => None,
            },
        }
    }
}

pub open spec fn infos_view(s: Seq<ActorInfo>) -> Seq<ActorInfoV> {
    s.map_values(|a: ActorInfo| a@)
}

pub fn copy_infos(s: &Vec<ActorInfo>) -> (r: Vec<ActorInfo>)
    ensures
        infos_view(r@) == infos_view(s@),
{
    let mut out: Vec<ActorInfo> = Vec::new();
    let mut i: usize = 0;
    while i < s.len()
        invariant
            i <= s@.len(),
            out@.len() == i,
            forall|j: int| 0 <= j < i ==> (#[trigger] out@[j])@ == s@[j]@,
        decreases s@.len() - i,
    {
        out.push(s[i].copy());
        i = i + 1;
    }
    assert(infos_view(out@) =~= infos_view(s@));
    out
}

/// The downstream actors named for one upstream actor.
#[derive(Debug)]
pub struct OutputsEntry {
    pub actor_id: u32,
    pub infos: Vec<ActorInfo>,
}

pub struct OutputsEntryV {
    pub actor_id: u32,
    pub infos: Seq<ActorInfoV>,
}

impl View for OutputsEntry {
    type V = OutputsEntryV;

    open spec fn view(&self) -> OutputsEntryV {
        OutputsEntryV { actor_id: self.actor_id, infos: infos_view(self.infos@) }
    }
}

pub open spec fn entries_view(s: Seq<OutputsEntry>) -> Seq<OutputsEntryV> {
    s.map_values(|e: OutputsEntry| e@)
}

pub fn copy_entries(s: &Vec<OutputsEntry>) -> (r: Vec<OutputsEntry>)
    ensures
        entries_view(r@) == entries_view(s@),
{
    let mut out: Vec<OutputsEntry> = Vec::new();
    let mut i: usize = 0;
    while i < s.len()
        invariant
            i <= s@.len(),
            out@.len() == i,
            forall|j: int| 0 <= j < i ==> (#[trigger] out@[j])@ == s@[j]@,
        decreases s@.len() - i,
    {
        out.push(OutputsEntry { actor_id: s[i].actor_id, infos: copy_infos(&s[i].infos) });
        i = i + 1;
    }
    assert(entries_view(out@) =~= entries_view(s@));
    out
}

/// The position of the first entry for `actor`, if any.
pub open spec fn find_entry(s: Seq<OutputsEntryV>, actor: u32) -> Option<int>
    decreases s.len(),
{
    if s.len() == 0 {
        None
    } else {
        match find_entry(s.drop_last(), actor) {
            Some(i) => Some(i),
            None => if s.last().actor_id == actor {
                Some(s.len() - 1)
            } else {
                None
            },
        }
    }
}

pub proof fn lemma_find_entry(s: Seq<OutputsEntryV>, actor: u32)
    ensures
        find_entry(s, actor) matches Some(i) ==> 0 <= i < s.len() && s[i].actor_id == actor
            && forall|j: int| 0 <= j < i ==> (#[trigger] s[j]).actor_id != actor,
        find_entry(s, actor) is None ==> forall|j: int| 0 <= j < s.len() ==> (#[trigger] s[j]).actor_id != actor,
    decreases s.len(),
{
    if s.len() > 0 {
        let p = s.drop_last();
        lemma_find_entry(p, actor);
        assert(forall|j: int| 0 <= j < p.len() ==> p[j] == s[j]);
    }
}

/// Finds the downstream actors named for `actor`.
pub fn lookup_entry(s: &Vec<OutputsEntry>, actor: u32) -> (r: Option<usize>)
    ensures
        r matches Some(i) ==> find_entry(entries_view(s@), actor) == Some(i as int) && i < s@.len(),
        r is None ==> find_entry(entries_view(s@), actor) is None,
{
    proof {
        lemma_find_entry(entries_view(s@), actor);
    }
    let mut i: usize = 0;
    while i < s.len()
        invariant
            i <= s@.len(),
            forall|j: int| 0 <= j < i ==> (#[trigger] s@[j]).actor_id != actor,
        decreases s@.len() - i,
    {
        if s[i].actor_id == actor {
            proof {
                lemma_find_entry(entries_view(s@), actor);
                let e = entries_view(s@);
                assert(e[i as int].actor_id == actor);
                if let Some(k) = find_entry(e, actor) {
                    if k < i {
                        assert(s@[k].actor_id != actor);
                    }
                    assert(!(k > i));
                }
            }
            return Some(i);
        }
        i = i + 1;
    }
    proof {
        let e = entries_view(s@);
        if let Some(k) = find_entry(e, actor) {
            assert(s@[k].actor_id != actor);
        }
    }
    None
}

/// A configuration change carried by a barrier.
#[derive(Debug)]
pub enum Mutation {
    /// Stop the listed actors.
    Stop(Vec<u32>),
    /// Replace the outputs of each listed upstream actor.
    UpdateOutputs(Vec<OutputsEntry>),
    /// Add outputs to each listed upstream actor.
    AddOutput(Vec<OutputsEntry>),
}

pub enum MutationV {
    Stop(Seq<u32>),
    UpdateOutputs(Seq<OutputsEntryV>),
    AddOutput(Seq<OutputsEntryV>),
}

impl View for Mutation {
    type V = MutationV;

    open spec fn view(&self) -> MutationV {
        match self {
            Mutation::Stop(a) => MutationV::Stop(a@),
            Mutation::UpdateOutputs(e) => MutationV::UpdateOutputs(entries_view(e@)),
            Mutation::AddOutput(e) => MutationV::AddOutput(entries_view(e@)),
        }
    }
}

impl Mutation {
    pub fn copy(&self) -> (r: Mutation)
        ensures
            r@ == self@,
    {
        match self {
            Mutation::Stop(a) => {
                let c = a.clone();
                assert(c@ =~= a@);
                Mutation::Stop(c)
            },
            Mutation::UpdateOutputs(e) => Mutation::UpdateOutputs(copy_entries(e)),
            Mutation::AddOutput(e) => Mutation::AddOutput(copy_entries(e)),
        }
    }

    /// The mutation stops actors.
    pub fn is_stop(&self) -> (r: bool)
        ensures
            r == (self@ is Stop),
    {
        match self {
            Mutation::Stop(_) => true,
            _ => false,
        }
    }
}

pub open spec fn mutation_view(m: Option<Mutation>) -> Option<MutationV> {
    match m {
        Some(m) => Some(m@),
        None => None,
    }
}

/// The control message that closes one epoch and opens the next.
#[derive(Debug)]
pub struct Barrier {
    pub epoch: Epoch,
    pub mutation: Option<Mutation>,
}

pub struct BarrierV {
    pub epoch: Epoch,
    pub mutation: Option<MutationV>,
}

impl View for Barrier {
    type V = BarrierV;

    open spec fn view(&self) -> BarrierV {
        BarrierV { epoch: self.epoch, mutation: mutation_view(self.mutation) }
    }
}

impl Default for Barrier {
    /// A barrier of the first epoch, without mutation.
    fn default() -> (r: Barrier)
        ensures
            r@ == (BarrierV { epoch: Epoch { curr: 1, prev: INVALID_EPOCH }, mutation: None }),
    {
        Barrier { epoch: Epoch { curr: 1, prev: INVALID_EPOCH }, mutation: None }
    }
}

/// Whether an actor id occurs in a list.
pub fn contains_id(ids: &Vec<u32>, id: u32) -> (r: bool)
    ensures
        r == ids@.contains(id),
{
    let mut i: usize = 0;
    while i < ids.len()
        invariant
            i <= ids@.len(),
            forall|j: int| 0 <= j < i ==> ids@[j] != id,
        decreases ids@.len() - i,
    {
        if ids[i] == id {
            assert(ids@[i as int] == id);
            return true;
        }
        i = i + 1;
    }
    false
}

/// Some entry names `actor` as a downstream.
pub open spec fn names_downstream(s: Seq<OutputsEntryV>, actor: u32) -> bool {
    exists|i: int, j: int|
        0 <= i < s.len() && 0 <= j < s[i].infos.len() && (#[trigger] s[i].infos[j]).actor_id == actor
}

impl Barrier {
    /// A barrier without mutation that opens `epoch`.
    pub fn new_test_barrier(epoch: u64) -> (r: Barrier)
        requires
            epoch > 0,
        ensures
            r@ == (BarrierV { epoch: Epoch { curr: epoch, prev: (epoch - 1) as u64 }, mutation: None }),
    {
        Barrier { epoch: Epoch::new_test_epoch(epoch), mutation: None }
    }

    /// The barrier with its mutation replaced.
    pub fn with_mutation(self, mutation: Mutation) -> (r: Barrier)
        ensures
            r@ == (BarrierV { epoch: self.epoch, mutation: Some(mutation@) }),
    {
        Barrier { epoch: self.epoch, mutation: Some(mutation) }
    }

    pub fn copy(&self) -> (r: Barrier)
        ensures
            r@ == self@,
    {
        Barrier {
            epoch: self.epoch,
            mutation: match &self.mutation {
                Some(m) => Some(m.copy()),
                None => None,
            },
        }
    }

    /// The barrier stops `actor_id`.
    pub fn is_to_stop_actor(&self, actor_id: u32) -> (r: bool)
        ensures
            r == (self@.mutation matches Some(MutationV::Stop(ids)) && ids.contains(actor_id)),
    {
        match &self.mutation {
            Some(Mutation::Stop(ids)) => contains_id(ids, actor_id),
            _ => false,
        }
    }

    /// The barrier adds `actor_id` as an output of some actor.
    pub fn is_to_add_output(&self, actor_id: u32) -> (r: bool)
        ensures
            r == (self@.mutation matches Some(MutationV::AddOutput(s)) && names_downstream(s, actor_id)),
    {
        match &self.mutation {
            Some(Mutation::AddOutput(entries)) => {
                let ghost s = entries_view(entries@);
                let mut i: usize = 0;
                while i < entries.len()
                    invariant
                        i <= entries@.len(),
                        s == entries_view(entries@),
                        self@.mutation == Some(MutationV::AddOutput(s)),
                        forall|a: int, b: int|
                            0 <= a < i && 0 <= b < s[a].infos.len() ==> (#[trigger] s[a].infos[b]).actor_id
                                != actor_id,
                    decreases entries@.len() - i,
                {
                    let infos = &entries[i].infos;
                    let mut j: usize = 0;
                    while j < infos.len()
                        invariant
                            i < entries@.len(),
                            j <= infos@.len(),
                            infos == &entries@[i as int].infos,
                            s == entries_view(entries@),
                            self@.mutation == Some(MutationV::AddOutput(s)),
                            forall|b: int| 0 <= b < j ==> (#[trigger] s[i as int].infos[b]).actor_id != actor_id,
                        decreases infos@.len() - j,
                    {
                        assert(s[i as int].infos[j as int] == infos@[j as int]@);
                        if infos[j].actor_id == actor_id {
                            assert(s[i as int].infos[j as int].actor_id == actor_id);
                            assert(names_downstream(s, actor_id));
                            return true;
                        }
                        j = j + 1;
                    }
                    i = i + 1;
                }
                false
            },
            _ => false,
        }
    }
}

/// A message on a channel: rows or a barrier.
#[derive(Debug)]
pub enum Message {
    Chunk(StreamChunk),
    Barrier(Barrier),
}

pub enum MessageV {
    Chunk(ChunkV),
    Barrier(BarrierV),
}

impl View for Message {
    type V = MessageV;

    open spec fn view(&self) -> MessageV {
        match self {
            Message::Chunk(c) => MessageV::Chunk(c@),
            Message::Barrier(b) => MessageV::Barrier(b@),
        }
    }
}

impl Message {
    /// The message is a barrier that stops actors.
    pub fn is_stop(&self) -> (r: bool)
        ensures
            r == (self@ matches MessageV::Barrier(b) && b.mutation matches Some(MutationV::Stop(_))),
    {
        match self {
            Message::Barrier(b) => match &b.mutation {
                Some(m) => m.is_stop(),
                None => false,
            },
            Message::Chunk(_) => false,
        }
    }
}

/// Whether a stateful operator has seen its first barrier.
#[derive(Clone, Copy, Debug, PartialEq, Eq, Structural)]
pub enum ExecutorState {
    /// Waiting for the first barrier.
    Init,
    /// Reading and writing state at this epoch.
    Active(u64),
}

impl ExecutorState {
    /// The current epoch of an active operator.
    pub fn epoch(&self) -> (r: u64)
        requires
            *self is Active,
        ensures
            *self == ExecutorState::Active(r),
    {
        match self {
            ExecutorState::Active(e) => *e,
            ExecutorState::Init => 0,
        }
    }
}

} // verus!
