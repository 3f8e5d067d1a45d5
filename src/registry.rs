//! The process-wide channel registry: one channel per actor edge
//! `(upstream, downstream)`, holding its writer and reader ends until the
//! actors take them.
use vstd::prelude::*;
use crate::chunk::{filter_seq, lemma_filter_step};
use crate::error::StreamError;
use crate::message::{contains_id, HostAddress};

verus! {

/// The channel of one actor edge; an end is `None` once taken.
pub struct ChannelPair<W, R> {
    pub up: u32,
    pub down: u32,
    pub writer: Option<W>,
    pub reader: Option<R>,
}

/// The channels of this process, by actor edge.
pub struct ChannelRegistry<W, R> {
    pub pairs: Vec<ChannelPair<W, R>>,
    /// Address of this process.
    pub addr: HostAddress,
}

/// No edge has two channels.
pub open spec fn edges_unique<W, R>(s: Seq<ChannelPair<W, R>>) -> bool {
    forall|i: int, j: int|
        0 <= i < j < s.len() ==> !(s[i].up == s[j].up && s[i].down == s[j].down)
}

/// The position of the channel of edge `(up, down)`, if any.
pub open spec fn find_pair<W, R>(s: Seq<ChannelPair<W, R>>, up: u32, down: u32) -> Option<int>
    decreases s.len(),
{
    if s.len() == 0 {
        None
    } else {
        match find_pair(s.drop_last(), up, down) {
            Some(i) => Some(i),
            None => if s.last().up == up && s.last().down == down {
                Some(s.len() - 1)
            } else {
                None
            },
        }
    }
}

pub proof fn lemma_find_pair<W, R>(s: Seq<ChannelPair<W, R>>, up: u32, down: u32)
    ensures
        find_pair(s, up, down) matches Some(i) ==> 0 <= i < s.len() && s[i].up == up && s[i].down
            == down && forall|j: int|
            0 <= j < i ==> !((#[trigger] s[j]).up == up && s[j].down == down),
        find_pair(s, up, down) is None ==> forall|j: int|
            0 <= j < s.len() ==> !((#[trigger] s[j]).up == up && s[j].down == down),
    decreases s.len(),
{
    if s.len() > 0 {
        let p = s.drop_last();
        lemma_find_pair(p, up, down);
        assert(forall|j: int| 0 <= j < p.len() ==> p[j] == s[j]);
    }
}

/// The writer end registered for edge `(up, down)`, if any.
pub open spec fn writer_of<W, R>(s: Seq<ChannelPair<W, R>>, up: u32, down: u32) -> Option<W> {
    match find_pair(s, up, down) {
        Some(i) => s[i].writer,
        None => None,
    }
}

/// The edges that stay when `actor`'s outputs become `downs`.
pub open spec fn retain_mask<W, R>(s: Seq<ChannelPair<W, R>>, actor: u32, downs: Seq<u32>) -> Seq<bool> {
    Seq::new(s.len(), |i: int| s[i].up != actor || downs.contains(s[i].down))
}

/// The registry after the writer of the channel at `i` was taken.
pub open spec fn writer_taken<W, R>(s: Seq<ChannelPair<W, R>>, i: int) -> Seq<ChannelPair<W, R>> {
    s.update(i, ChannelPair { up: s[i].up, down: s[i].down, writer: None, reader: s[i].reader })
}

impl<W, R> ChannelRegistry<W, R> {
    pub open spec fn wf(&self) -> bool {
        edges_unique(self.pairs@)
    }

    /// An empty registry for the process at `addr`.
    pub fn new(addr: HostAddress) -> (r: Self)
        ensures
            r.wf(),
            r.pairs@.len() == 0,
            r.addr@ == addr@,
    {
        ChannelRegistry { pairs: Vec::new(), addr }
    }

    /// Number of registered channels.
    pub fn len(&self) -> (r: usize)
        ensures
            r == self.pairs@.len(),
    {
        self.pairs.len()
    }

    /// The position of the channel of edge `(up, down)`.
    pub fn position(&self, up: u32, down: u32) -> (r: Option<usize>)
        ensures
            r matches Some(i) ==> find_pair(self.pairs@, up, down) == Some(i as int),
            r is None ==> find_pair(self.pairs@, up, down) is None,
    {
        proof {
            lemma_find_pair(self.pairs@, up, down);
        }
        let mut i: usize = 0;
        while i < self.pairs.len()
            invariant
                i <= self.pairs@.len(),
                forall|j: int| 0 <= j < i ==> !((#[trigger] self.pairs@[j]).up == up && self.pairs@[j].down == down),
            decreases self.pairs@.len() - i,
        {
            if self.pairs[i].up == up && self.pairs[i].down == down {
                proof {
                    lemma_find_pair(self.pairs@, up, down);
                    if let Some(k) = find_pair(self.pairs@, up, down) {
                        if k < i {
                            assert(!(self.pairs@[k].up == up && self.pairs@[k].down == down));
                        }
                        assert(!(k > i));
                    }
                }
                return Some(i);
            }
            i = i + 1;
        }
        proof {
            lemma_find_pair(self.pairs@, up, down);
            if let Some(k) = find_pair(self.pairs@, up, down) {
                assert(!(self.pairs@[k].up == up && self.pairs@[k].down == down));
            }
        }
        None
    }

    /// A channel is registered for edge `(up, down)`.
    pub fn contains(&self, up: u32, down: u32) -> (r: bool)
        ensures
            r == find_pair(self.pairs@, up, down) is Some,
    {
        self.position(up, down).is_some()
    }

    /// Registers the channel of edge `(up, down)`; an edge that has one is refused.
    pub fn add_pair(&mut self, up: u32, down: u32, writer: W, reader: R) -> (r: Result<(), StreamError>)
        requires
            old(self).wf(),
        ensures
            final(self).wf(),
            final(self).addr == old(self).addr,
            r is Err <==> find_pair(old(self).pairs@, up, down) is Some,
            r is Err ==> r == Err::<(), StreamError>(StreamError::DuplicateRoute { up, down })
                && final(self).pairs@ == old(self).pairs@,
            r is Ok ==> final(self).pairs@ == old(self).pairs@.push(
                ChannelPair { up, down, writer: Some(writer), reader: Some(reader) },
            ),
    {
        if self.contains(up, down) {
            return Err(StreamError::DuplicateRoute { up, down });
        }
        proof {
            lemma_find_pair(self.pairs@, up, down);
        }
        self.pairs.push(ChannelPair { up, down, writer: Some(writer), reader: Some(reader) });
        Ok(())
    }

    /// Takes the writer end of edge `(up, down)`; an edge without channel
    /// or whose writer is taken is refused.
    pub fn take_sender(&mut self, up: u32, down: u32) -> (r: Result<W, StreamError>)
        requires
            old(self).wf(),
        ensures
            final(self).wf(),
            final(self).addr == old(self).addr,
            r is Ok <==> writer_of(old(self).pairs@, up, down) is Some,
            r is Err ==> r == Err::<W, StreamError>(StreamError::NoRoute { up, down })
                && final(self).pairs@ == old(self).pairs@,
            r matches Ok(w) ==> writer_of(old(self).pairs@, up, down) == Some(w)
                && final(self).pairs@ == writer_taken(
                old(self).pairs@,
                find_pair(old(self).pairs@, up, down)->Some_0,
            ),
    {
        let i = match self.position(up, down) {
            Some(i) => i,
            None => {
                return Err(StreamError::NoRoute { up, down });
            },
        };
        let ghost before = self.pairs@;
        proof {
            lemma_find_pair(before, up, down);
        }
        let p = self.pairs.remove(i);
        let ChannelPair { up: pu, down: pd, writer, reader } = p;
        match writer {
            Some(w) => {
                self.pairs.insert(i, ChannelPair { up: pu, down: pd, writer: None, reader });
                assert(self.pairs@ =~= writer_taken(before, i as int));
                Ok(w)
            },
            None => {
                self.pairs.insert(i, ChannelPair { up: pu, down: pd, writer: None, reader });
                assert(self.pairs@ =~= before);
                Err(StreamError::NoRoute { up, down })
            },
        }
    }

    /// Takes the reader end of edge `(up, down)`; an edge without channel
    /// or whose reader is taken is refused.
    pub fn take_receiver(&mut self, up: u32, down: u32) -> (r: Result<R, StreamError>)
        requires
            old(self).wf(),
        ensures
            final(self).wf(),
            final(self).addr == old(self).addr,
            r is Ok <==> (find_pair(old(self).pairs@, up, down) matches Some(i)
                && old(self).pairs@[i].reader is Some),
            r is Err ==> r == Err::<R, StreamError>(StreamError::NoRoute { up, down })
                && final(self).pairs@ == old(self).pairs@,
            r matches Ok(x) ==> ({
                let i = find_pair(old(self).pairs@, up, down)->Some_0;
                &&& old(self).pairs@[i].reader == Some(x)
                &&& final(self).pairs@ == old(self).pairs@.update(
                    i,
                    ChannelPair {
                        up,
                        down,
                        writer: old(self).pairs@[i].writer,
                        reader: None,
                    },
                )
            }),
    {
        let i = match self.position(up, down) {
            Some(i) => i,
            None => {
                return Err(StreamError::NoRoute { up, down });
            },
        };
        let ghost before = self.pairs@;
        proof {
            lemma_find_pair(before, up, down);
        }
        let p = self.pairs.remove(i);
        let ChannelPair { up: pu, down: pd, writer, reader } = p;
        match reader {
            Some(x) => {
                self.pairs.insert(i, ChannelPair { up: pu, down: pd, writer, reader: None });
                assert(self.pairs@ =~= before.update(
                    i as int,
                    ChannelPair { up, down, writer: before[i as int].writer, reader: None },
                ));
                Ok(x)
            },
            None => {
                self.pairs.insert(i, ChannelPair { up: pu, down: pd, writer, reader: None });
                assert(self.pairs@ =~= before);
                Err(StreamError::NoRoute { up, down })
            },
        }
    }

    /// Drops the channels of `actor`'s outputs to actors not in `downs`.
    pub fn retain(&mut self, actor: u32, downs: &Vec<u32>)
        requires
            old(self).wf(),
        ensures
            final(self).wf(),
            final(self).addr == old(self).addr,
            final(self).pairs@ == filter_seq(old(self).pairs@, retain_mask(old(self).pairs@, actor, downs@)),
    {
        let ghost orig = self.pairs@;
        let ghost mask = retain_mask(orig, actor, downs@);
        let n0 = self.pairs.len();
        let mut rest: Vec<ChannelPair<W, R>> = Vec::new();
        core::mem::swap(&mut rest, &mut self.pairs);
        let mut out: Vec<ChannelPair<W, R>> = Vec::new();
        let mut k: usize = 0;
        while rest.len() > 0
            invariant
                n0 == orig.len(),
                k <= orig.len(),
                rest@ == orig.subrange(k as int, orig.len() as int),
                mask == retain_mask(orig, actor, downs@),
                out@ == filter_seq(orig.take(k as int), mask.take(k as int)),
            decreases rest@.len(),
        {
            proof {
                lemma_filter_step(orig, mask, k as int);
            }
            let p = rest.remove(0);
            assert(p == orig[k as int]);
            if p.up != actor || contains_id(downs, p.down) {
                out.push(p);
            }
            k = k + 1;
            assert(rest@ =~= orig.subrange(k as int, orig.len() as int));
        }
        assert(orig.take(k as int) =~= orig);
        assert(mask.take(k as int) =~= mask);
        self.pairs = out;
        proof {
            lemma_filter_edges_unique(orig, mask);
        }
    }
}

pub proof fn lemma_filter_edges_unique<W, R>(s: Seq<ChannelPair<W, R>>, keep: Seq<bool>)
    requires
        edges_unique(s),
        keep.len() == s.len(),
    ensures
        edges_unique(filter_seq(s, keep)),
        forall|i: int|
            0 <= i < filter_seq(s, keep).len() ==> s.contains(#[trigger] filter_seq(s, keep)[i]),
    decreases s.len(),
{
    if s.len() > 0 {
        let p = s.drop_last();
        let kp = keep.take(s.len() - 1);
        lemma_filter_edges_unique(p, kp);
        let fp = filter_seq(p, kp);
        let f = filter_seq(s, keep);
        assert forall|i: int| 0 <= i < f.len() implies s.contains(#[trigger] f[i]) by {
            if i < fp.len() {
                assert(f[i] == fp[i]);
                let j = choose|j: int| 0 <= j < p.len() && p[j] == fp[i];
                assert(s[j] == f[i]);
            } else {
                assert(f[i] == s[s.len() - 1]);
            }
        }
        assert forall|i: int, j: int| 0 <= i < j < f.len() implies !(f[i].up == f[j].up && f[i].down
            == f[j].down) by {
            if j < fp.len() {
                assert(f[i] == fp[i] && f[j] == fp[j]);
            } else {
                assert(f[j] == s.last());
                assert(f[i] == fp[i]);
                let x = choose|x: int| 0 <= x < p.len() && p[x] == fp[i];
                assert(s[x] == f[i]);
            }
        }
    }
}

} // verus!
