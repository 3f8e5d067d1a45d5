//! The wire form of barriers and messages.
//!
//! A barrier is its two epochs and its mutation: a tag byte (0 none, 1 stop,
//! 2 update, 3 add) and then the stopped actors, or the entries of the map
//! from upstream actor to downstream actor infos. Lists carry an 8-byte
//! length; actor ids are 4 bytes; a host is a presence byte, then its name as
//! a string and its port.
use vstd::prelude::*;
use crate::bytes::{int_bytes, le_bytes, lemma_le_bytes_len, lemma_pow256_values, pow256, put_int, put_uint};
use crate::codec::{
    decode_chunk, enc_chunk, enc_scalar, enc_seq, encode_chunk, holds_at, lemma_enc_seq_concat,
    lemma_enc_seq_step, lemma_holds_at_concat, read_int, read_uint, read_utf8,
};
use crate::chunk::chunk_wf;
use crate::encoding::put_utf8;
use crate::message::{
    ActorInfo, ActorInfoV, Barrier, BarrierV, HostAddress, HostAddressV, Message, MessageV, Mutation,
    MutationV, OutputsEntry, OutputsEntryV, entries_view, infos_view, mutation_view,
};
use crate::types::ScalarV;

verus! {

pub open spec fn enc_id(id: u32) -> Seq<u8> {
    le_bytes(id as nat, 4)
}

pub open spec fn enc_ids(s: Seq<u32>) -> Seq<u8> {
    le_bytes(s.len(), 8) + enc_seq(s, |id: u32| enc_id(id))
}

pub open spec fn enc_host(h: Option<HostAddressV>) -> Seq<u8> {
    match h {
        None => seq![0u8],
        Some(a) => seq![1u8] + enc_scalar(ScalarV::Utf8(a.host)) + int_bytes(a.port as int, 4),
    }
}

pub open spec fn enc_info(i: ActorInfoV) -> Seq<u8> {
    enc_id(i.actor_id) + enc_host(i.host)
}

pub open spec fn enc_infos(s: Seq<ActorInfoV>) -> Seq<u8> {
    le_bytes(s.len(), 8) + enc_seq(s, |i: ActorInfoV| enc_info(i))
}

pub open spec fn enc_entry(e: OutputsEntryV) -> Seq<u8> {
    enc_id(e.actor_id) + enc_infos(e.infos)
}

pub open spec fn enc_entries(s: Seq<OutputsEntryV>) -> Seq<u8> {
    le_bytes(s.len(), 8) + enc_seq(s, |e: OutputsEntryV| enc_entry(e))
}

pub open spec fn enc_mutation(m: Option<MutationV>) -> Seq<u8> {
    match m {
        None => seq![0u8],
        Some(MutationV::Stop(ids)) => seq![1u8] + enc_ids(ids),
        Some(MutationV::UpdateOutputs(es)) => seq![2u8] + enc_entries(es),
        Some(MutationV::AddOutput(es)) => seq![3u8] + enc_entries(es),
    }
}

/// The wire form of a barrier.
pub open spec fn enc_barrier(b: BarrierV) -> Seq<u8> {
    le_bytes(b.epoch.curr as nat, 8) + le_bytes(b.epoch.prev as nat, 8) + enc_mutation(b.mutation)
}

/// The wire form of a message.
pub open spec fn enc_message(m: MessageV) -> Seq<u8> {
    match m {
        MessageV::Chunk(c) => seq![0u8] + enc_chunk(c),
        MessageV::Barrier(b) => seq![1u8] + enc_barrier(b),
    }
}

fn put_ids(out: &mut Vec<u8>, ids: &Vec<u32>)
    ensures
        final(out)@ == old(out)@ + enc_ids(ids@),
{
    put_uint(out, ids.len() as u64, 8);
    let ghost head = out@;
    let ghost f = |id: u32| enc_id(id);
    let mut i: usize = 0;
    while i < ids.len()
        invariant
            i <= ids@.len(),
            f == (|id: u32| enc_id(id)),
            out@ == head + enc_seq(ids@.take(i as int), f),
        decreases ids@.len() - i,
    {
        proof {
            lemma_enc_seq_step(ids@, i as int, f);
        }
        put_uint(out, ids[i] as u64, 4);
        i = i + 1;
        assert(out@ =~= head + enc_seq(ids@.take(i as int), f));
    }
    assert(ids@.take(i as int) =~= ids@);
    assert(out@ =~= old(out)@ + enc_ids(ids@));
}

fn put_info(out: &mut Vec<u8>, info: &ActorInfo)
    ensures
        final(out)@ == old(out)@ + enc_info(info@),
{
    put_uint(out, info.actor_id as u64, 4);
    match &info.host {
        None => out.push(0u8),
        Some(h) => {
            out.push(1u8);
            let b: &[u8] = h.host.as_str().as_bytes();
            put_uint(out, b.len() as u64, 8);
            put_utf8(out, &h.host);
            proof {
                lemma_pow256_values();
            }
            put_int(out, h.port as i64, 4);
        },
    }
    assert(out@ =~= old(out)@ + enc_info(info@));
}

fn put_infos(out: &mut Vec<u8>, infos: &Vec<ActorInfo>)
    ensures
        final(out)@ == old(out)@ + enc_infos(infos_view(infos@)),
{
    let ghost s = infos_view(infos@);
    put_uint(out, infos.len() as u64, 8);
    let ghost head = out@;
    let ghost f = |i: ActorInfoV| enc_info(i);
    let mut i: usize = 0;
    while i < infos.len()
        invariant
            i <= infos@.len(),
            s == infos_view(infos@),
            f == (|i: ActorInfoV| enc_info(i)),
            out@ == head + enc_seq(s.take(i as int), f),
        decreases infos@.len() - i,
    {
        proof {
            lemma_enc_seq_step(s, i as int, f);
        }
        assert(s[i as int] == infos@[i as int]@);
        put_info(out, &infos[i]);
        i = i + 1;
        assert(out@ =~= head + enc_seq(s.take(i as int), f));
    }
    assert(s.take(i as int) =~= s);
    assert(out@ =~= old(out)@ + enc_infos(s));
}

fn put_entries(out: &mut Vec<u8>, entries: &Vec<OutputsEntry>)
    ensures
        final(out)@ == old(out)@ + enc_entries(entries_view(entries@)),
{
    let ghost s = entries_view(entries@);
    put_uint(out, entries.len() as u64, 8);
    let ghost head = out@;
    let ghost f = |e: OutputsEntryV| enc_entry(e);
    let mut i: usize = 0;
    while i < entries.len()
        invariant
            i <= entries@.len(),
            s == entries_view(entries@),
            f == (|e: OutputsEntryV| enc_entry(e)),
            out@ == head + enc_seq(s.take(i as int), f),
        decreases entries@.len() - i,
    {
        proof {
            lemma_enc_seq_step(s, i as int, f);
        }
        assert(s[i as int] == entries@[i as int]@);
        let ghost before = out@;
        put_uint(out, entries[i].actor_id as u64, 4);
        put_infos(out, &entries[i].infos);
        assert(out@ =~= before + enc_entry(s[i as int]));
        i = i + 1;
        assert(out@ =~= head + enc_seq(s.take(i as int), f));
    }
    assert(s.take(i as int) =~= s);
    assert(out@ =~= old(out)@ + enc_entries(s));
}

impl Barrier {
    /// The wire form of the barrier.
    pub fn to_bytes(&self) -> (r: Vec<u8>)
        ensures
            r@ == enc_barrier(self@),
    {
        let mut out: Vec<u8> = Vec::new();
        put_uint(&mut out, self.epoch.curr, 8);
        put_uint(&mut out, self.epoch.prev, 8);
        let ghost head = out@;
        match &self.mutation {
            None => out.push(0u8),
            Some(Mutation::Stop(ids)) => {
                out.push(1u8);
                put_ids(&mut out, ids);
            },
            Some(Mutation::UpdateOutputs(es)) => {
                out.push(2u8);
                put_entries(&mut out, es);
            },
            Some(Mutation::AddOutput(es)) => {
                out.push(3u8);
                put_entries(&mut out, es);
            },
        }
        assert(out@ =~= head + enc_mutation(self@.mutation));
        assert(out@ =~= enc_barrier(self@));
        out
    }
}

impl Message {
    /// The wire form of the message.
    pub fn to_bytes(&self) -> (r: Vec<u8>)
        ensures
            r@ == enc_message(self@),
    {
        let mut out: Vec<u8> = Vec::new();
        match self {
            Message::Chunk(c) => {
                out.push(0u8);
                let body = encode_chunk(c);
                let mut body = body;
                out.append(&mut body);
            },
            Message::Barrier(b) => {
                out.push(1u8);
                let mut body = b.to_bytes();
                out.append(&mut body);
            },
        }
        assert(out@ =~= enc_message(self@));
        out
    }
}

// ---------------------------------------------------------------------------
// Decoding

/// Where a list's elements are encoded one after the other from `start`,
/// element `i` stands after the first `i`.
pub proof fn lemma_seq_elem_at<A>(buf: Seq<u8>, start: int, s: Seq<A>, f: spec_fn(A) -> Seq<u8>, i: int)
    requires
        holds_at(buf, start, enc_seq(s, f)),
        0 <= i < s.len(),
    ensures
        holds_at(buf, start + enc_seq(s.take(i), f).len(), f(s[i])),
{
    lemma_enc_seq_step(s, i, f);
    lemma_holds_at_concat(buf, start, enc_seq(s.take(i), f), enc_seq(s.skip(i), f));
    lemma_holds_at_concat(buf, start + enc_seq(s.take(i), f).len(), f(s[i]), enc_seq(s.skip(i + 1), f));
}

/// One more element encoded after a list extends the list's encoding.
pub proof fn lemma_seq_extend<A>(buf: Seq<u8>, start: int, s: Seq<A>, f: spec_fn(A) -> Seq<u8>, x: A)
    requires
        holds_at(buf, start, enc_seq(s, f)),
        holds_at(buf, start + enc_seq(s, f).len(), f(x)),
    ensures
        holds_at(buf, start, enc_seq(s.push(x), f)),
        enc_seq(s.push(x), f) == enc_seq(s, f) + f(x),
{
    lemma_enc_seq_concat(s, seq![x], f);
    assert(s.push(x) =~= s + seq![x]);
    assert(seq![x].drop_first() =~= Seq::<A>::empty());
    assert(enc_seq(Seq::<A>::empty(), f) =~= Seq::<u8>::empty());
    assert(enc_seq(seq![x], f) =~= f(x));
    lemma_holds_at_concat(buf, start, enc_seq(s, f), f(x));
}

/// A length-prefixed list: its length, then its elements.
pub proof fn lemma_list_parts<A>(buf: Seq<u8>, pos: int, s: Seq<A>, f: spec_fn(A) -> Seq<u8>)
    requires
        holds_at(buf, pos, le_bytes(s.len(), 8) + enc_seq(s, f)),
        buf.len() < pow256(8),
        forall|x: A| (#[trigger] f(x)).len() >= 1,
    ensures
        holds_at(buf, pos, le_bytes(s.len(), 8)),
        holds_at(buf, pos + 8, enc_seq(s, f)),
        s.len() < pow256(8),
{
    lemma_le_bytes_len(s.len(), 8);
    lemma_holds_at_concat(buf, pos, le_bytes(s.len(), 8), enc_seq(s, f));
    lemma_enc_len_at_least(s, f);
}

pub proof fn lemma_enc_len_at_least<A>(s: Seq<A>, f: spec_fn(A) -> Seq<u8>)
    ensures
        s.len() <= enc_seq(s, f).len() || exists|i: int| 0 <= i < s.len() && f(s[i]).len() == 0,
    decreases s.len(),
{
    if s.len() > 0 {
        lemma_enc_len_at_least(s.drop_first(), f);
        if exists|i: int| 0 <= i < s.drop_first().len() && f(s.drop_first()[i]).len() == 0 {
            let i = choose|i: int| 0 <= i < s.drop_first().len() && f(s.drop_first()[i]).len() == 0;
            assert(f(s[i + 1]).len() == 0);
        }
    }
}

fn read_ids(buf: &Vec<u8>, pos: usize) -> (r: Option<(Vec<u32>, usize)>)
    ensures
        r matches Some((x, p)) ==> p == pos + enc_ids(x@).len() && holds_at(buf@, pos as int, enc_ids(x@)),
        forall|s: Seq<u32>| #[trigger] holds_at(buf@, pos as int, enc_ids(s)) ==> (r matches Some((x, p)) && x@
            == s && p == pos + enc_ids(s).len()),
{
    let blen = buf.len();
    let ghost f = |id: u32| enc_id(id);
    proof {
        lemma_pow256_values();
        assert forall|x: u32| (#[trigger] f(x)).len() >= 1 by {
            lemma_le_bytes_len(x as nat, 4);
        }
        assert forall|s: Seq<u32>| #[trigger] holds_at(buf@, pos as int, enc_ids(s)) implies holds_at(
            buf@,
            pos as int,
            le_bytes(s.len(), 8),
        ) && holds_at(buf@, pos + 8, enc_seq(s, f)) && s.len() < pow256(8) by {
            lemma_list_parts(buf@, pos as int, s, f);
        }
    }
    let n = match read_uint(buf, pos, 8) {
        Some(n) => n,
        None => {
            return None;
        },
    };
    if n > (buf.len() - pos - 8) as u64 {
        proof {
            assert forall|s: Seq<u32>| #[trigger] holds_at(buf@, pos as int, enc_ids(s)) implies false by {
                lemma_le_bytes_len(s.len(), 8);
                assert(s.len() == n);
                assert forall|i: int| 0 <= i < s.len() implies f(s[i]).len() == 4 by {
                    lemma_le_bytes_len(s[i] as nat, 4);
                }
                lemma_enc_len_at_least(s, f);
            }
        }
        return None;
    }
    let start = pos + 8;
    proof {
        lemma_le_bytes_len(n as nat, 8);
        assert(buf@.subrange(start as int, start as int) =~= Seq::<u8>::empty());
    }
    let mut out: Vec<u32> = Vec::new();
    let mut cur: usize = start;
    let mut i: usize = 0;
    while i < n as usize
        invariant
            blen == buf@.len(),
            start == pos + 8,
            i <= n,
            out@.len() == i,
            f == (|id: u32| enc_id(id)),
            holds_at(buf@, pos as int, le_bytes(n as nat, 8)),
            holds_at(buf@, start as int, enc_seq(out@, f)),
            cur == start + enc_seq(out@, f).len(),
            forall|s: Seq<u32>| #[trigger] holds_at(buf@, pos as int, enc_ids(s)) ==> s.len() == n && out@
                == s.take(i as int) && holds_at(buf@, start as int, enc_seq(s, f)),
        decreases n - i,
    {
        proof {
            assert forall|s: Seq<u32>| #[trigger] holds_at(buf@, pos as int, enc_ids(s)) implies holds_at(
                buf@,
                cur as int,
                enc_id(s[i as int]),
            ) by {
                lemma_seq_elem_at(buf@, start as int, s, f, i as int);
            }
        }
        let x = match read_uint(buf, cur, 4) {
            Some(x) => x,
            None => {
                proof {
                    assert forall|s: Seq<u32>| #[trigger] holds_at(buf@, pos as int, enc_ids(s)) implies false by {
                        lemma_le_bytes_len(s[i as int] as nat, 4);
                    }
                }
                return None;
            },
        };
        proof {
            lemma_pow256_values();
            lemma_le_bytes_len(x as nat, 4);
            lemma_seq_extend(buf@, start as int, out@, f, x as u32);
            assert forall|s: Seq<u32>| #[trigger] holds_at(buf@, pos as int, enc_ids(s)) implies s[i as int] == x by {
                lemma_le_bytes_len(s[i as int] as nat, 4);
            }
        }
        let ghost before = out@;
        out.push(x as u32);
        cur = cur + 4;
        proof {
            assert forall|s: Seq<u32>| #[trigger] holds_at(buf@, pos as int, enc_ids(s)) implies out@ == s.take(i + 1) by {
                assert(s.take(i + 1) =~= s.take(i as int).push(s[i as int]));
            }
        }
        i = i + 1;
    }
    proof {
        assert(out@.len() == n);
        lemma_holds_at_concat(buf@, pos as int, le_bytes(n as nat, 8), enc_seq(out@, f));
        assert forall|s: Seq<u32>| #[trigger] holds_at(buf@, pos as int, enc_ids(s)) implies out@ == s by {
            assert(s.take(i as int) =~= s);
        }
    }
    Some((out, cur))
}

pub open spec fn host_view(h: Option<HostAddress>) -> Option<HostAddressV> {
    match h {
        Some(a) => Some(a@),
        None => None,
    }
}

fn read_host(buf: &Vec<u8>, pos: usize) -> (r: Option<(Option<HostAddress>, usize)>)
    ensures
        r matches Some((x, p)) ==> p == pos + enc_host(host_view(x)).len() && holds_at(
            buf@,
            pos as int,
            enc_host(host_view(x)),
        ),
        forall|h: Option<HostAddressV>| #[trigger] holds_at(buf@, pos as int, enc_host(h)) ==> (r matches Some(
            (x, p),
        ) && host_view(x) == h && p == pos + enc_host(h).len()),
{
    let blen = buf.len();
    proof {
        lemma_pow256_values();
        assert forall|h: Option<HostAddressV>| #[trigger] holds_at(buf@, pos as int, enc_host(h)) implies pos
            < buf@.len() && buf@[pos as int] == (if h is Some { 1u8 } else { 0u8 }) && (h matches Some(a) ==> {
            &&& holds_at(buf@, pos + 1, enc_scalar(ScalarV::Utf8(a.host)))
            &&& holds_at(buf@, pos + 1 + enc_scalar(ScalarV::Utf8(a.host)).len(), int_bytes(a.port as int, 4))
        }) by {
            assert(buf@.subrange(pos as int, pos + enc_host(h).len())[0] == buf@[pos as int]);
            if let Some(a) = h {
                let u = enc_scalar(ScalarV::Utf8(a.host));
                lemma_holds_at_concat(buf@, pos as int, seq![1u8] + u, int_bytes(a.port as int, 4));
                lemma_holds_at_concat(buf@, pos as int, seq![1u8], u);
            }
        }
    }
    if pos >= buf.len() {
        return None;
    }
    if buf[pos] == 0 {
        assert(buf@.subrange(pos as int, pos + 1) =~= seq![0u8]);
        return Some((None, pos + 1));
    }
    if buf[pos] != 1 {
        return None;
    }
    let (name, p) = match read_utf8(buf, pos + 1) {
        Some(x) => x,
        None => {
            return None;
        },
    };
    let port = match read_int(buf, p, 4) {
        Some(x) => x,
        None => {
            proof {
                assert forall|h: Option<HostAddressV>| #[trigger] holds_at(buf@, pos as int, enc_host(h)) implies false by {
                    let a = h->Some_0;
                    lemma_le_bytes_len(crate::bytes::twos(a.port as int, 4), 4);
                }
            }
            return None;
        },
    };
    let ghost nv = name@;
    let h = HostAddress { host: name, port: port as i32 };
    proof {
        lemma_le_bytes_len(crate::bytes::twos(port as int, 4), 4);
        assert(buf@.subrange(pos as int, pos + 1) =~= seq![1u8]);
        let u = enc_scalar(ScalarV::Utf8(nv));
        lemma_holds_at_concat(buf@, pos as int, seq![1u8], u);
        lemma_holds_at_concat(buf@, pos as int, seq![1u8] + u, int_bytes(port as int, 4));
        assert(enc_host(host_view(Some(h))) == seq![1u8] + u + int_bytes(port as int, 4));
        assert forall|hv: Option<HostAddressV>| #[trigger] holds_at(buf@, pos as int, enc_host(hv)) implies hv
            == Some(h@) by {
            let a = hv->Some_0;
            lemma_le_bytes_len(crate::bytes::twos(a.port as int, 4), 4);
        }
    }
    Some((Some(h), p + 4))
}

fn read_info(buf: &Vec<u8>, pos: usize) -> (r: Option<(ActorInfo, usize)>)
    ensures
        r matches Some((x, p)) ==> p == pos + enc_info(x@).len() && holds_at(buf@, pos as int, enc_info(x@)),
        forall|v: ActorInfoV| #[trigger] holds_at(buf@, pos as int, enc_info(v)) ==> (r matches Some((x, p))
            && x@ == v && p == pos + enc_info(v).len()),
{
    let blen = buf.len();
    proof {
        lemma_pow256_values();
        assert forall|v: ActorInfoV| #[trigger] holds_at(buf@, pos as int, enc_info(v)) implies holds_at(
            buf@,
            pos as int,
            enc_id(v.actor_id),
        ) && holds_at(buf@, pos + 4, enc_host(v.host)) by {
            lemma_le_bytes_len(v.actor_id as nat, 4);
            lemma_holds_at_concat(buf@, pos as int, enc_id(v.actor_id), enc_host(v.host));
        }
    }
    let id = match read_uint(buf, pos, 4) {
        Some(x) => x,
        None => {
            proof {
                assert forall|v: ActorInfoV| #[trigger] holds_at(buf@, pos as int, enc_info(v)) implies false by {
                    lemma_le_bytes_len(v.actor_id as nat, 4);
                }
            }
            return None;
        },
    };
    let (host, p) = match read_host(buf, pos + 4) {
        Some(x) => x,
        None => {
            return None;
        },
    };
    let info = ActorInfo { actor_id: id as u32, host };
    proof {
        lemma_le_bytes_len(id as nat, 4);
        lemma_holds_at_concat(buf@, pos as int, enc_id(id as u32), enc_host(info@.host));
    }
    Some((info, p))
}

fn read_infos(buf: &Vec<u8>, pos: usize) -> (r: Option<(Vec<ActorInfo>, usize)>)
    ensures
        r matches Some((x, p)) ==> p == pos + enc_infos(infos_view(x@)).len() && holds_at(
            buf@,
            pos as int,
            enc_infos(infos_view(x@)),
        ),
        forall|s: Seq<ActorInfoV>| #[trigger] holds_at(buf@, pos as int, enc_infos(s)) ==> (r matches Some(
            (x, p),
        ) && infos_view(x@) == s && p == pos + enc_infos(s).len()),
{
    let blen = buf.len();
    let ghost f = |i: ActorInfoV| enc_info(i);
    proof {
        lemma_pow256_values();
        assert forall|x: ActorInfoV| (#[trigger] f(x)).len() >= 1 by {
            lemma_le_bytes_len(x.actor_id as nat, 4);
        }
        assert forall|s: Seq<ActorInfoV>| #[trigger] holds_at(buf@, pos as int, enc_infos(s)) implies holds_at(
            buf@,
            pos as int,
            le_bytes(s.len(), 8),
        ) && holds_at(buf@, pos + 8, enc_seq(s, f)) && s.len() < pow256(8) by {
            lemma_list_parts(buf@, pos as int, s, f);
        }
    }
    let n = match read_uint(buf, pos, 8) {
        Some(n) => n,
        None => {
            return None;
        },
    };
    if n > (buf.len() - pos - 8) as u64 {
        proof {
            assert forall|s: Seq<ActorInfoV>| #[trigger] holds_at(buf@, pos as int, enc_infos(s)) implies false by {
                lemma_le_bytes_len(s.len(), 8);
                lemma_enc_len_at_least(s, f);
            }
        }
        return None;
    }
    let start = pos + 8;
    proof {
        lemma_le_bytes_len(n as nat, 8);
        assert(buf@.subrange(start as int, start as int) =~= Seq::<u8>::empty());
    }
    let mut out: Vec<ActorInfo> = Vec::new();
    let mut cur: usize = start;
    let mut i: usize = 0;
    while i < n as usize
        invariant
            blen == buf@.len(),
            start == pos + 8,
            i <= n,
            out@.len() == i,
            f == (|i: ActorInfoV| enc_info(i)),
            holds_at(buf@, pos as int, le_bytes(n as nat, 8)),
            holds_at(buf@, start as int, enc_seq(infos_view(out@), f)),
            cur == start + enc_seq(infos_view(out@), f).len(),
            forall|s: Seq<ActorInfoV>| #[trigger] holds_at(buf@, pos as int, enc_infos(s)) ==> s.len() == n
                && infos_view(out@) == s.take(i as int) && holds_at(buf@, start as int, enc_seq(s, f)),
        decreases n - i,
    {
        proof {
            assert forall|s: Seq<ActorInfoV>| #[trigger] holds_at(buf@, pos as int, enc_infos(s)) implies holds_at(
                buf@,
                cur as int,
                enc_info(s[i as int]),
            ) by {
                lemma_seq_elem_at(buf@, start as int, s, f, i as int);
            }
        }
        let (x, p) = match read_info(buf, cur) {
            Some(x) => x,
            None => {
                return None;
            },
        };
        proof {
            lemma_seq_extend(buf@, start as int, infos_view(out@), f, x@);
        }
        let ghost before = out@;
        out.push(x);
        assert(infos_view(out@) =~= infos_view(before).push(out@[i as int]@));
        cur = p;
        proof {
            assert forall|s: Seq<ActorInfoV>| #[trigger] holds_at(buf@, pos as int, enc_infos(s)) implies infos_view(
                out@,
            ) == s.take(i + 1) by {
                assert(s.take(i + 1) =~= s.take(i as int).push(s[i as int]));
            }
        }
        i = i + 1;
    }
    proof {
        lemma_holds_at_concat(buf@, pos as int, le_bytes(n as nat, 8), enc_seq(infos_view(out@), f));
        assert forall|s: Seq<ActorInfoV>| #[trigger] holds_at(buf@, pos as int, enc_infos(s)) implies infos_view(out@)
            == s by {
            assert(s.take(i as int) =~= s);
        }
    }
    Some((out, cur))
}

fn read_entry(buf: &Vec<u8>, pos: usize) -> (r: Option<(OutputsEntry, usize)>)
    ensures
        r matches Some((x, p)) ==> p == pos + enc_entry(x@).len() && holds_at(buf@, pos as int, enc_entry(x@)),
        forall|v: OutputsEntryV| #[trigger] holds_at(buf@, pos as int, enc_entry(v)) ==> (r matches Some((x, p))
            && x@ == v && p == pos + enc_entry(v).len()),
{
    let blen = buf.len();
    proof {
        lemma_pow256_values();
        assert forall|v: OutputsEntryV| #[trigger] holds_at(buf@, pos as int, enc_entry(v)) implies holds_at(
            buf@,
            pos as int,
            enc_id(v.actor_id),
        ) && holds_at(buf@, pos + 4, enc_infos(v.infos)) by {
            lemma_le_bytes_len(v.actor_id as nat, 4);
            lemma_holds_at_concat(buf@, pos as int, enc_id(v.actor_id), enc_infos(v.infos));
        }
    }
    let id = match read_uint(buf, pos, 4) {
        Some(x) => x,
        None => {
            proof {
                assert forall|v: OutputsEntryV| #[trigger] holds_at(buf@, pos as int, enc_entry(v)) implies false by {
                    lemma_le_bytes_len(v.actor_id as nat, 4);
                }
            }
            return None;
        },
    };
    let (infos, p) = match read_infos(buf, pos + 4) {
        Some(x) => x,
        None => {
            return None;
        },
    };
    let e = OutputsEntry { actor_id: id as u32, infos };
    proof {
        lemma_le_bytes_len(id as nat, 4);
        lemma_holds_at_concat(buf@, pos as int, enc_id(id as u32), enc_infos(e@.infos));
    }
    Some((e, p))
}

fn read_entries(buf: &Vec<u8>, pos: usize) -> (r: Option<(Vec<OutputsEntry>, usize)>)
    ensures
        r matches Some((x, p)) ==> p == pos + enc_entries(entries_view(x@)).len() && holds_at(
            buf@,
            pos as int,
            enc_entries(entries_view(x@)),
        ),
        forall|s: Seq<OutputsEntryV>| #[trigger] holds_at(buf@, pos as int, enc_entries(s)) ==> (r matches Some(
            (x, p),
        ) && entries_view(x@) == s && p == pos + enc_entries(s).len()),
{
    let blen = buf.len();
    let ghost f = |e: OutputsEntryV| enc_entry(e);
    proof {
        lemma_pow256_values();
        assert forall|x: OutputsEntryV| (#[trigger] f(x)).len() >= 1 by {
            lemma_le_bytes_len(x.actor_id as nat, 4);
        }
        assert forall|s: Seq<OutputsEntryV>| #[trigger] holds_at(buf@, pos as int, enc_entries(s)) implies holds_at(
            buf@,
            pos as int,
            le_bytes(s.len(), 8),
        ) && holds_at(buf@, pos + 8, enc_seq(s, f)) && s.len() < pow256(8) by {
            lemma_list_parts(buf@, pos as int, s, f);
        }
    }
    let n = match read_uint(buf, pos, 8) {
        Some(n) => n,
        None => {
            return None;
        },
    };
    if n > (buf.len() - pos - 8) as u64 {
        proof {
            assert forall|s: Seq<OutputsEntryV>| #[trigger] holds_at(buf@, pos as int, enc_entries(s)) implies false by {
                lemma_le_bytes_len(s.len(), 8);
                lemma_enc_len_at_least(s, f);
            }
        }
        return None;
    }
    let start = pos + 8;
    proof {
        lemma_le_bytes_len(n as nat, 8);
        assert(buf@.subrange(start as int, start as int) =~= Seq::<u8>::empty());
    }
    let mut out: Vec<OutputsEntry> = Vec::new();
    let mut cur: usize = start;
    let mut i: usize = 0;
    while i < n as usize
        invariant
            blen == buf@.len(),
            start == pos + 8,
            i <= n,
            out@.len() == i,
            f == (|e: OutputsEntryV| enc_entry(e)),
            holds_at(buf@, pos as int, le_bytes(n as nat, 8)),
            holds_at(buf@, start as int, enc_seq(entries_view(out@), f)),
            cur == start + enc_seq(entries_view(out@), f).len(),
            forall|s: Seq<OutputsEntryV>| #[trigger] holds_at(buf@, pos as int, enc_entries(s)) ==> s.len() == n
                && entries_view(out@) == s.take(i as int) && holds_at(buf@, start as int, enc_seq(s, f)),
        decreases n - i,
    {
        proof {
            assert forall|s: Seq<OutputsEntryV>| #[trigger] holds_at(buf@, pos as int, enc_entries(s)) implies holds_at(
                buf@,
                cur as int,
                enc_entry(s[i as int]),
            ) by {
                lemma_seq_elem_at(buf@, start as int, s, f, i as int);
            }
        }
        let (x, p) = match read_entry(buf, cur) {
            Some(x) => x,
            None => {
                return None;
            },
        };
        proof {
            lemma_seq_extend(buf@, start as int, entries_view(out@), f, x@);
        }
        let ghost before = out@;
        out.push(x);
        assert(entries_view(out@) =~= entries_view(before).push(out@[i as int]@));
        cur = p;
        proof {
            assert forall|s: Seq<OutputsEntryV>| #[trigger] holds_at(buf@, pos as int, enc_entries(s)) implies entries_view(
                out@,
            ) == s.take(i + 1) by {
                assert(s.take(i + 1) =~= s.take(i as int).push(s[i as int]));
            }
        }
        i = i + 1;
    }
    proof {
        lemma_holds_at_concat(buf@, pos as int, le_bytes(n as nat, 8), enc_seq(entries_view(out@), f));
        assert forall|s: Seq<OutputsEntryV>| #[trigger] holds_at(buf@, pos as int, enc_entries(s)) implies entries_view(out@)
            == s by {
            assert(s.take(i as int) =~= s);
        }
    }
    Some((out, cur))
}

fn read_mutation(buf: &Vec<u8>, pos: usize) -> (r: Option<(Option<Mutation>, usize)>)
    ensures
        r matches Some((x, p)) ==> p == pos + enc_mutation(mutation_view(x)).len() && holds_at(
            buf@,
            pos as int,
            enc_mutation(mutation_view(x)),
        ),
        forall|m: Option<MutationV>| #[trigger] holds_at(buf@, pos as int, enc_mutation(m)) ==> (r matches Some(
            (x, p),
        ) && mutation_view(x) == m && p == pos + enc_mutation(m).len()),
{
    let blen = buf.len();
    proof {
        assert forall|m: Option<MutationV>| #[trigger] holds_at(buf@, pos as int, enc_mutation(m)) implies pos
            < buf@.len() && buf@[pos as int] == match m {
            None => 0u8,
            Some(MutationV::Stop(_)) => 1u8,
            Some(MutationV::UpdateOutputs(_)) => 2u8,
            Some(MutationV::AddOutput(_)) => 3u8,
        } && match m {
            None => true,
            Some(MutationV::Stop(ids)) => holds_at(buf@, pos + 1, enc_ids(ids)),
            Some(MutationV::UpdateOutputs(es)) => holds_at(buf@, pos + 1, enc_entries(es)),
            Some(MutationV::AddOutput(es)) => holds_at(buf@, pos + 1, enc_entries(es)),
        } by {
            assert(buf@.subrange(pos as int, pos + enc_mutation(m).len())[0] == buf@[pos as int]);
            match m {
                None => {},
                Some(MutationV::Stop(ids)) => lemma_holds_at_concat(buf@, pos as int, seq![1u8], enc_ids(ids)),
                Some(MutationV::UpdateOutputs(es)) => lemma_holds_at_concat(buf@, pos as int, seq![2u8], enc_entries(es)),
                Some(MutationV::AddOutput(es)) => lemma_holds_at_concat(buf@, pos as int, seq![3u8], enc_entries(es)),
            }
        }
    }
    if pos >= buf.len() {
        return None;
    }
    let tag = buf[pos];
    if tag == 0 {
        assert(buf@.subrange(pos as int, pos + 1) =~= seq![0u8]);
        return Some((None, pos + 1));
    }
    if tag == 1 {
        let (ids, p) = match read_ids(buf, pos + 1) {
            Some(x) => x,
            None => {
                return None;
            },
        };
        proof {
            assert(buf@.subrange(pos as int, pos + 1) =~= seq![1u8]);
            lemma_holds_at_concat(buf@, pos as int, seq![1u8], enc_ids(ids@));
        }
        return Some((Some(Mutation::Stop(ids)), p));
    }
    if tag == 2 || tag == 3 {
        let (es, p) = match read_entries(buf, pos + 1) {
            Some(x) => x,
            None => {
                return None;
            },
        };
        proof {
            assert(buf@.subrange(pos as int, pos + 1) =~= seq![tag]);
            lemma_holds_at_concat(buf@, pos as int, seq![tag], enc_entries(entries_view(es@)));
        }
        if tag == 2 {
            return Some((Some(Mutation::UpdateOutputs(es)), p));
        } else {
            return Some((Some(Mutation::AddOutput(es)), p));
        }
    }
    None
}

impl Barrier {
    /// The barrier whose wire form is `bytes`; one whose epoch does not move
    /// forward is refused.
    pub fn from_bytes(bytes: &Vec<u8>) -> (r: Option<Barrier>)
        ensures
            r matches Some(b) ==> enc_barrier(b@) == bytes@ && b.epoch.curr > b.epoch.prev,
            forall|b: BarrierV| b.epoch.curr > b.epoch.prev && #[trigger] enc_barrier(b) == bytes@ ==> (r matches Some(
                x,
            ) && x@ == b),
    {
        let blen = bytes.len();
        let ghost buf = bytes@;
        proof {
            lemma_pow256_values();
            assert(buf.subrange(0, buf.len() as int) =~= buf);
            assert forall|b: BarrierV| #[trigger] enc_barrier(b) == bytes@ implies holds_at(
                buf,
                0,
                le_bytes(b.epoch.curr as nat, 8),
            ) && holds_at(buf, 8, le_bytes(b.epoch.prev as nat, 8)) && holds_at(buf, 16, enc_mutation(b.mutation))
                && 16 + enc_mutation(b.mutation).len() == buf.len() by {
                let a = le_bytes(b.epoch.curr as nat, 8);
                let c = le_bytes(b.epoch.prev as nat, 8);
                lemma_le_bytes_len(b.epoch.curr as nat, 8);
                lemma_le_bytes_len(b.epoch.prev as nat, 8);
                lemma_holds_at_concat(buf, 0, a + c, enc_mutation(b.mutation));
                lemma_holds_at_concat(buf, 0, a, c);
            }
        }
        let curr = match read_uint(bytes, 0, 8) {
            Some(x) => x,
            None => {
                proof {
                    assert forall|b: BarrierV| #[trigger] enc_barrier(b) == bytes@ implies false by {
                        lemma_le_bytes_len(b.epoch.curr as nat, 8);
                    }
                }
                return None;
            },
        };
        let prev = match read_uint(bytes, 8, 8) {
            Some(x) => x,
            None => {
                proof {
                    assert forall|b: BarrierV| #[trigger] enc_barrier(b) == bytes@ implies false by {
                        lemma_le_bytes_len(b.epoch.prev as nat, 8);
                    }
                }
                return None;
            },
        };
        let (mutation, end) = match read_mutation(bytes, 16) {
            Some(x) => x,
            None => {
                return None;
            },
        };
        if end != bytes.len() || curr <= prev {
            return None;
        }
        let b = Barrier { epoch: crate::message::Epoch { curr, prev }, mutation };
        proof {
            lemma_le_bytes_len(curr as nat, 8);
            lemma_le_bytes_len(prev as nat, 8);
            let a = le_bytes(curr as nat, 8);
            let c = le_bytes(prev as nat, 8);
            lemma_holds_at_concat(buf, 0, a, c);
            lemma_holds_at_concat(buf, 0, a + c, enc_mutation(b@.mutation));
        }
        Some(b)
    }
}

impl Message {
    /// The message whose wire form is `bytes`.
    pub fn from_bytes(bytes: &Vec<u8>) -> (r: Option<Message>)
        ensures
            r matches Some(m) ==> enc_message(m@) == bytes@,
            forall|m: MessageV|
                match m {
                    MessageV::Chunk(c) => chunk_wf(c),
                    MessageV::Barrier(b) => b.epoch.curr > b.epoch.prev,
                } && #[trigger] enc_message(m) == bytes@ ==> (r matches Some(x) && x@ == m),
    {
        let ghost buf = bytes@;
        proof {
            assert forall|m: MessageV| #[trigger] enc_message(m) == bytes@ implies buf.len() >= 1 && buf[0]
                == (if m is Chunk { 0u8 } else { 1u8 }) && buf.subrange(1, buf.len() as int) == match m {
                MessageV::Chunk(c) => enc_chunk(c),
                MessageV::Barrier(b) => enc_barrier(b),
            } by {
                match m {
                    MessageV::Chunk(c) => assert(buf.subrange(1, buf.len() as int) =~= enc_chunk(c)),
                    MessageV::Barrier(b) => assert(buf.subrange(1, buf.len() as int) =~= enc_barrier(b)),
                }
            }
        }
        if bytes.len() == 0 {
            return None;
        }
        let mut body: Vec<u8> = Vec::new();
        let mut i: usize = 1;
        while i < bytes.len()
            invariant
                1 <= i <= bytes@.len(),
                body@ == bytes@.subrange(1, i as int),
            decreases bytes@.len() - i,
        {
            body.push(bytes[i]);
            i = i + 1;
            assert(body@ =~= bytes@.subrange(1, i as int));
        }
        if bytes[0] == 0 {
            match decode_chunk(&body) {
                Some(c) => {
                    assert(bytes@ =~= seq![0u8] + body@);
                    Some(Message::Chunk(c))
                },
                None => None,
            }
        } else if bytes[0] == 1 {
            match Barrier::from_bytes(&body) {
                Some(b) => {
                    assert(bytes@ =~= seq![1u8] + body@);
                    Some(Message::Barrier(b))
                },
                None => None,
            }
        } else {
            None
        }
    }
}

} // verus!
