//! The system registry: streams own topics, topics own partitions. A single
//! consumer applies commands against it — creating partitions under a topic
//! and draining every partition's write buffer to durable storage.

use vstd::prelude::*;
use crate::create_partitions::{CreatePartitions, MAX_PARTITIONS_COUNT};
use crate::error::IggyError;
use crate::identifier::{Identifier, IdentifierView, bytes_eq};
use crate::partition::Partition;

verus! {

/// A topic: a numeric ID, a name, and the partitions it owns.
#[derive(Debug)]
pub struct Topic {
    pub topic_id: u32,
    pub name: Vec<u8>,
    pub partitions: Vec<Partition>,
}

/// A stream: a numeric ID, a name, and the topics it owns.
#[derive(Debug)]
pub struct Stream {
    pub stream_id: u32,
    pub name: Vec<u8>,
    pub topics: Vec<Topic>,
}

/// The registry root. All mutation runs through one consumer at a time, so
/// the partitions' counters and buffers are under exclusive access while a
/// command executes.
#[derive(Debug)]
pub struct System {
    /// Segment bound handed to every partition created here.
    pub segment_capacity: usize,
    pub streams: Vec<Stream>,
}

/// Messages buffered and not yet persisted across a run of partitions.
pub open spec fn buffered_in_partitions(ps: Seq<Partition>) -> nat
    decreases ps.len(),
{
    if ps.len() == 0 {
        0
    } else {
        buffered_in_partitions(ps.drop_last()) + ps.last().buffer@.len()
    }
}

/// Messages buffered and not yet persisted across a run of topics.
pub open spec fn buffered_in_topics(ts: Seq<Topic>) -> nat
    decreases ts.len(),
{
    if ts.len() == 0 {
        0
    } else {
        buffered_in_topics(ts.drop_last()) + buffered_in_partitions(ts.last().partitions@)
    }
}

/// Messages buffered and not yet persisted across a run of streams.
pub open spec fn buffered_in_streams(ss: Seq<Stream>) -> nat
    decreases ss.len(),
{
    if ss.len() == 0 {
        0
    } else {
        buffered_in_streams(ss.drop_last()) + buffered_in_topics(ss.last().topics@)
    }
}

/// A count reported as a `u64`, stuck at the ceiling if it cannot fit.
pub open spec fn sat64(n: nat) -> u64 {
    if n <= u64::MAX {
        n as u64
    } else {
        u64::MAX
    }
}

proof fn lemma_partitions_nothing_buffered(ps: Seq<Partition>)
    requires
        forall|p: int| 0 <= p < ps.len() ==> (#[trigger] ps[p]).buffer@.len() == 0,
    ensures
        buffered_in_partitions(ps) == 0,
    decreases ps.len(),
{
    if ps.len() > 0 {
        assert(forall|p: int| 0 <= p < ps.drop_last().len()
            ==> (#[trigger] ps.drop_last()[p]).buffer@.len() == 0);
        lemma_partitions_nothing_buffered(ps.drop_last());
    }
}

proof fn lemma_topics_nothing_buffered(ts: Seq<Topic>)
    requires
        forall|t: int, p: int| 0 <= t < ts.len() && 0 <= p < ts[t].partitions@.len()
            ==> (#[trigger] ts[t].partitions@[p]).buffer@.len() == 0,
    ensures
        buffered_in_topics(ts) == 0,
    decreases ts.len(),
{
    if ts.len() > 0 {
        assert forall|t: int, p: int| 0 <= t < ts.drop_last().len()
            && 0 <= p < ts.drop_last()[t].partitions@.len()
            implies (#[trigger] ts.drop_last()[t].partitions@[p]).buffer@.len() == 0 by {
            assert(ts.drop_last()[t] == ts[t]);
            assert(ts[t].partitions@[p].buffer@.len() == 0);
        }
        lemma_topics_nothing_buffered(ts.drop_last());
        assert forall|p: int| 0 <= p < ts.last().partitions@.len()
            implies (#[trigger] ts.last().partitions@[p]).buffer@.len() == 0 by {
            assert(ts[ts.len() - 1].partitions@[p].buffer@.len() == 0);
        }
        lemma_partitions_nothing_buffered(ts.last().partitions@);
    }
}

/// With every write buffer in the registry empty — as any flush leaves them —
/// nothing is buffered, so the next flush persists zero messages.
pub proof fn lemma_nothing_buffered(ss: Seq<Stream>)
    requires
        forall|s: int, t: int, p: int| 0 <= s < ss.len()
            && 0 <= t < ss[s].topics@.len()
            && 0 <= p < ss[s].topics@[t].partitions@.len()
            ==> (#[trigger] ss[s].topics@[t].partitions@[p]).buffer@.len() == 0,
    ensures
        buffered_in_streams(ss) == 0,
    decreases ss.len(),
{
    if ss.len() > 0 {
        assert forall|s: int, t: int, p: int| 0 <= s < ss.drop_last().len()
            && 0 <= t < ss.drop_last()[s].topics@.len()
            && 0 <= p < ss.drop_last()[s].topics@[t].partitions@.len()
            implies (#[trigger] ss.drop_last()[s].topics@[t].partitions@[p])
                .buffer@.len() == 0 by {
            assert(ss.drop_last()[s] == ss[s]);
            assert(ss[s].topics@[t].partitions@[p].buffer@.len() == 0);
        }
        lemma_nothing_buffered(ss.drop_last());
        assert forall|t: int, p: int| 0 <= t < ss.last().topics@.len()
            && 0 <= p < ss.last().topics@[t].partitions@.len()
            implies (#[trigger] ss.last().topics@[t].partitions@[p]).buffer@.len() == 0 by {
            assert(ss[ss.len() - 1].topics@[t].partitions@[p].buffer@.len() == 0);
        }
        lemma_topics_nothing_buffered(ss.last().topics@);
    }
}

/// Whether an identifier refers to this stream.
pub open spec fn id_matches_stream(s: Stream, id: IdentifierView) -> bool {
    match id {
        IdentifierView::Numeric(v) => s.stream_id == v,
        IdentifierView::Named(n) => s.name@ == n,
    }
}

/// Whether an identifier refers to this topic.
pub open spec fn id_matches_topic(t: Topic, id: IdentifierView) -> bool {
    match id {
        IdentifierView::Numeric(v) => t.topic_id == v,
        IdentifierView::Named(n) => t.name@ == n,
    }
}

/// Whether some stream of the run matches the identifier.
pub open spec fn has_stream(ss: Seq<Stream>, id: IdentifierView) -> bool {
    exists|i: int| 0 <= i < ss.len() && id_matches_stream(#[trigger] ss[i], id)
}

/// Whether some topic of the run matches the identifier.
pub open spec fn has_topic(ts: Seq<Topic>, id: IdentifierView) -> bool {
    exists|i: int| 0 <= i < ts.len() && id_matches_topic(#[trigger] ts[i], id)
}

impl Topic {
    /// Well-formedness: partitions are well formed against the system's
    /// segment bound, numbered 1 upward in order, and bounded in count.
    pub open spec fn inv(self, segment_capacity: usize) -> bool {
        &&& self.partitions@.len() <= MAX_PARTITIONS_COUNT
        &&& forall|i: int| 0 <= i < self.partitions@.len()
            ==> (#[trigger] self.partitions@[i]).inv()
                && self.partitions@[i].segment_capacity == segment_capacity
                && self.partitions@[i].partition_id == i + 1
    }
}

impl Stream {
    /// Well-formedness: every topic is well formed, and no two topics share
    /// an ID or a name, so an identifier refers to at most one of them.
    pub open spec fn inv(self, segment_capacity: usize) -> bool {
        &&& forall|i: int| 0 <= i < self.topics@.len()
            ==> (#[trigger] self.topics@[i]).inv(segment_capacity)
        &&& forall|i: int, j: int| #![trigger self.topics@[i], self.topics@[j]]
            0 <= i < j < self.topics@.len()
            ==> self.topics@[i].topic_id != self.topics@[j].topic_id
                && self.topics@[i].name@ != self.topics@[j].name@
    }
}

impl System {
    /// Well-formedness: every stream is well formed, and no two streams
    /// share an ID or a name, so an identifier refers to at most one.
    pub open spec fn inv(self) -> bool {
        &&& self.segment_capacity >= 1
        &&& forall|i: int| 0 <= i < self.streams@.len()
            ==> (#[trigger] self.streams@[i]).inv(self.segment_capacity)
        &&& forall|i: int, j: int| #![trigger self.streams@[i], self.streams@[j]]
            0 <= i < j < self.streams@.len()
            ==> self.streams@[i].stream_id != self.streams@[j].stream_id
                && self.streams@[i].name@ != self.streams@[j].name@
    }

    /// An empty registry.
    pub fn new(segment_capacity: usize) -> (s: System)
        requires
            segment_capacity >= 1,
        ensures
            s.inv(),
            s.segment_capacity == segment_capacity,
            s.streams@ =~= Seq::<Stream>::empty(),
    {
        System { segment_capacity, streams: Vec::new() }
    }
}

/// The index of the stream an identifier refers to; with unique IDs and
/// names it is the one match, whenever `has_stream` holds.
pub open spec fn stream_index(ss: Seq<Stream>, id: IdentifierView) -> int {
    choose|i: int| 0 <= i < ss.len() && id_matches_stream(#[trigger] ss[i], id)
}

/// The index of the topic an identifier refers to; with unique IDs and
/// names it is the one match, whenever `has_topic` holds.
pub open spec fn topic_index(ts: Seq<Topic>, id: IdentifierView) -> int {
    choose|i: int| 0 <= i < ts.len() && id_matches_topic(#[trigger] ts[i], id)
}

/// What a drained partition keeps of its old self: the same log, now fully
/// persisted, with an empty write buffer and untouched identity — and where
/// the buffer was already empty, the partition whole, segments and index
/// included, is exactly as it was.
pub open spec fn drained(p: Partition, q: Partition) -> bool {
    &&& p.inv()
    &&& p.log() =~= q.log()
    &&& p.persisted() =~= q.log()
    &&& p.buffer@.len() == 0
    &&& p.next_offset == q.next_offset
    &&& p.partition_id == q.partition_id
    &&& p.segment_capacity == q.segment_capacity
    &&& (q.buffer@.len() == 0 ==> p == q)
}

impl Topic {
    /// Drain every partition's write buffer into its open segment; return
    /// how many messages that persisted across the topic.
    fn flush_partitions(&mut self, force_fsync: bool) -> (count: u64)
        requires
            forall|i: int| 0 <= i < old(self).partitions@.len()
                ==> (#[trigger] old(self).partitions@[i]).inv(),
        ensures
            count == sat64(buffered_in_partitions(old(self).partitions@)),
            final(self).topic_id == old(self).topic_id,
            final(self).name == old(self).name,
            final(self).partitions@.len() == old(self).partitions@.len(),
            forall|i: int| 0 <= i < old(self).partitions@.len()
                ==> drained(#[trigger] final(self).partitions@[i],
                    old(self).partitions@[i]),
    {
        let mut count: u64 = 0;
        let mut i: usize = 0;
        let n = self.partitions.len();
        while i < n
            invariant
                i <= n,
                n == self.partitions@.len(),
                n == old(self).partitions@.len(),
                self.topic_id == old(self).topic_id,
                self.name == old(self).name,
                count == sat64(buffered_in_partitions(
                    old(self).partitions@.subrange(0, i as int))),
                forall|k: int| i <= k < n
                    ==> (#[trigger] self.partitions@[k]) == old(self).partitions@[k],
                forall|k: int| 0 <= k < n
                    ==> (#[trigger] old(self).partitions@[k]).inv(),
                forall|k: int| 0 <= k < i
                    ==> drained(#[trigger] self.partitions@[k], old(self).partitions@[k]),
            decreases n - i,
        {
            let mut p = self.partitions.remove(i);
            let ghost removed = self.partitions@;
            let flushed = p.flush(force_fsync);
            let flushed64 = flushed as u64;
            if u64::MAX - count >= flushed64 {
                count = count + flushed64;
            } else {
                count = u64::MAX;
            }
            self.partitions.insert(i, p);
            proof {
                assert forall|k: int| i + 1 <= k < n
                    implies (#[trigger] self.partitions@[k])
                        == old(self).partitions@[k] by {
                    assert(self.partitions@[k] == removed[k - 1]);
                }
                assert(self.partitions@[i as int] == p);
                let pre = old(self).partitions@.subrange(0, i as int);
                let pre1 = old(self).partitions@.subrange(0, i as int + 1);
                assert(pre1.drop_last() =~= pre);
                assert(pre1.last() == old(self).partitions@[i as int]);
            }
            i += 1;
        }
        proof {
            assert(old(self).partitions@.subrange(0, n as int) =~= old(self).partitions@);
        }
        count
    }
}

impl Stream {
    /// Drain every partition of every topic of this stream.
    fn flush_topics(&mut self, force_fsync: bool) -> (count: u64)
        requires
            forall|t: int, p: int| 0 <= t < old(self).topics@.len()
                && 0 <= p < old(self).topics@[t].partitions@.len()
                ==> (#[trigger] old(self).topics@[t].partitions@[p]).inv(),
        ensures
            count == sat64(buffered_in_topics(old(self).topics@)),
            final(self).stream_id == old(self).stream_id,
            final(self).name == old(self).name,
            final(self).topics@.len() == old(self).topics@.len(),
            forall|t: int| 0 <= t < old(self).topics@.len()
                ==> (#[trigger] final(self).topics@[t]).topic_id
                        == old(self).topics@[t].topic_id
                    && final(self).topics@[t].name == old(self).topics@[t].name
                    && final(self).topics@[t].partitions@.len()
                        == old(self).topics@[t].partitions@.len(),
            forall|t: int, p: int| 0 <= t < old(self).topics@.len()
                && 0 <= p < old(self).topics@[t].partitions@.len()
                ==> drained(#[trigger] final(self).topics@[t].partitions@[p],
                    old(self).topics@[t].partitions@[p]),
    {
        let mut count: u64 = 0;
        let mut i: usize = 0;
        let n = self.topics.len();
        while i < n
            invariant
                i <= n,
                n == self.topics@.len(),
                n == old(self).topics@.len(),
                self.stream_id == old(self).stream_id,
                self.name == old(self).name,
                count == sat64(buffered_in_topics(old(self).topics@.subrange(0, i as int))),
                forall|k: int| i <= k < n
                    ==> (#[trigger] self.topics@[k]) == old(self).topics@[k],
                forall|t: int, p: int| 0 <= t < n
                    && 0 <= p < old(self).topics@[t].partitions@.len()
                    ==> (#[trigger] old(self).topics@[t].partitions@[p]).inv(),
                forall|k: int| 0 <= k < i
                    ==> (#[trigger] self.topics@[k]).topic_id
                            == old(self).topics@[k].topic_id
                        && self.topics@[k].name == old(self).topics@[k].name
                        && self.topics@[k].partitions@.len()
                            == old(self).topics@[k].partitions@.len(),
                forall|t: int, p: int| 0 <= t < i
                    && 0 <= p < old(self).topics@[t].partitions@.len()
                    ==> drained(#[trigger] self.topics@[t].partitions@[p],
                        old(self).topics@[t].partitions@[p]),
            decreases n - i,
        {
            let mut t = self.topics.remove(i);
            let ghost removed = self.topics@;
            let flushed = t.flush_partitions(force_fsync);
            if u64::MAX - count >= flushed {
                count = count + flushed;
            } else {
                count = u64::MAX;
            }
            self.topics.insert(i, t);
            proof {
                assert forall|k: int| i + 1 <= k < n
                    implies (#[trigger] self.topics@[k]) == old(self).topics@[k] by {
                    assert(self.topics@[k] == removed[k - 1]);
                }
                assert(self.topics@[i as int] == t);
                let pre = old(self).topics@.subrange(0, i as int);
                let pre1 = old(self).topics@.subrange(0, i as int + 1);
                assert(pre1.drop_last() =~= pre);
                assert(pre1.last() == old(self).topics@[i as int]);
            }
            i += 1;
        }
        proof {
            assert(old(self).topics@.subrange(0, n as int) =~= old(self).topics@);
        }
        count
    }
}

impl System {
    /// Drain every partition's write buffer in the whole registry to its
    /// segment storage and report how many messages that persisted. With
    /// nothing buffered, it persists nothing and every log is untouched; a
    /// second call right after a first therefore always reports zero.
    /// `force_fsync` asks the storage edge for a durability barrier.
    pub fn persist_messages(&mut self, force_fsync: bool) -> (count: u64)
        requires
            old(self).inv(),
        ensures
            final(self).inv(),
            count == sat64(buffered_in_streams(old(self).streams@)),
            final(self).segment_capacity == old(self).segment_capacity,
            final(self).streams@.len() == old(self).streams@.len(),
            forall|s: int| 0 <= s < old(self).streams@.len()
                ==> (#[trigger] final(self).streams@[s]).stream_id
                        == old(self).streams@[s].stream_id
                    && final(self).streams@[s].name == old(self).streams@[s].name
                    && final(self).streams@[s].topics@.len()
                        == old(self).streams@[s].topics@.len(),
            forall|s: int, t: int| 0 <= s < old(self).streams@.len()
                && 0 <= t < old(self).streams@[s].topics@.len()
                ==> (#[trigger] final(self).streams@[s].topics@[t]).topic_id
                        == old(self).streams@[s].topics@[t].topic_id
                    && final(self).streams@[s].topics@[t].name
                        == old(self).streams@[s].topics@[t].name
                    && final(self).streams@[s].topics@[t].partitions@.len()
                        == old(self).streams@[s].topics@[t].partitions@.len(),
            forall|s: int, t: int, p: int| 0 <= s < old(self).streams@.len()
                && 0 <= t < old(self).streams@[s].topics@.len()
                && 0 <= p < old(self).streams@[s].topics@[t].partitions@.len()
                ==> drained(
                    #[trigger] final(self).streams@[s].topics@[t].partitions@[p],
                    old(self).streams@[s].topics@[t].partitions@[p]),
            (forall|s: int, t: int, p: int| 0 <= s < old(self).streams@.len()
                && 0 <= t < old(self).streams@[s].topics@.len()
                && 0 <= p < old(self).streams@[s].topics@[t].partitions@.len()
                ==> (#[trigger] old(self).streams@[s].topics@[t].partitions@[p])
                    .buffer@.len() == 0) ==> count == 0,
    {
        proof {
            if forall|s: int, t: int, p: int| 0 <= s < old(self).streams@.len()
                && 0 <= t < old(self).streams@[s].topics@.len()
                && 0 <= p < old(self).streams@[s].topics@[t].partitions@.len()
                ==> (#[trigger] old(self).streams@[s].topics@[t].partitions@[p])
                    .buffer@.len() == 0 {
                lemma_nothing_buffered(old(self).streams@);
            }
        }
        let mut count: u64 = 0;
        let mut i: usize = 0;
        let n = self.streams.len();
        while i < n
            invariant
                i <= n,
                n == self.streams@.len(),
                n == old(self).streams@.len(),
                self.segment_capacity == old(self).segment_capacity,
                old(self).inv(),
                count == sat64(buffered_in_streams(old(self).streams@.subrange(0, i as int))),
                forall|k: int| i <= k < n
                    ==> (#[trigger] self.streams@[k]) == old(self).streams@[k],
                forall|k: int| 0 <= k < i
                    ==> (#[trigger] self.streams@[k]).stream_id
                            == old(self).streams@[k].stream_id
                        && self.streams@[k].name == old(self).streams@[k].name
                        && self.streams@[k].topics@.len()
                            == old(self).streams@[k].topics@.len(),
                forall|k: int| 0 <= k < i
                    ==> (#[trigger] self.streams@[k]).inv(old(self).segment_capacity),
                forall|s: int, t: int| 0 <= s < i
                    && 0 <= t < old(self).streams@[s].topics@.len()
                    ==> (#[trigger] self.streams@[s].topics@[t]).topic_id
                            == old(self).streams@[s].topics@[t].topic_id
                        && self.streams@[s].topics@[t].name
                            == old(self).streams@[s].topics@[t].name
                        && self.streams@[s].topics@[t].partitions@.len()
                            == old(self).streams@[s].topics@[t].partitions@.len(),
                forall|s: int, t: int, p: int| 0 <= s < i
                    && 0 <= t < old(self).streams@[s].topics@.len()
                    && 0 <= p < old(self).streams@[s].topics@[t].partitions@.len()
                    ==> drained(
                        #[trigger] self.streams@[s].topics@[t].partitions@[p],
                        old(self).streams@[s].topics@[t].partitions@[p]),
            decreases n - i,
        {
            let mut s = self.streams.remove(i);
            let ghost removed = self.streams@;
            proof {
                assert(old(self).streams@[i as int].inv(old(self).segment_capacity));
            }
            let flushed = s.flush_topics(force_fsync);
            if u64::MAX - count >= flushed {
                count = count + flushed;
            } else {
                count = u64::MAX;
            }
            self.streams.insert(i, s);
            proof {
                assert forall|k: int| i + 1 <= k < n
                    implies (#[trigger] self.streams@[k]) == old(self).streams@[k] by {
                    assert(self.streams@[k] == removed[k - 1]);
                }
                assert(self.streams@[i as int] == s);
                assert(s.inv(old(self).segment_capacity)) by {
                    assert forall|t: int| 0 <= t < s.topics@.len()
                        implies (#[trigger] s.topics@[t]).inv(old(self).segment_capacity) by {
                        let q = old(self).streams@[i as int];
                        assert(q.topics@[t].inv(old(self).segment_capacity));
                        assert forall|p: int| 0 <= p < s.topics@[t].partitions@.len()
                            implies (#[trigger] s.topics@[t].partitions@[p]).inv()
                                && s.topics@[t].partitions@[p].segment_capacity
                                    == old(self).segment_capacity
                                && s.topics@[t].partitions@[p].partition_id == p + 1 by {
                            assert(drained(s.topics@[t].partitions@[p],
                                q.topics@[t].partitions@[p]));
                        }
                    }
                    assert forall|a: int, b: int|
                        #![trigger s.topics@[a], s.topics@[b]]
                        0 <= a < b < s.topics@.len()
                        implies s.topics@[a].topic_id != s.topics@[b].topic_id
                            && s.topics@[a].name@ != s.topics@[b].name@ by {
                        let q = old(self).streams@[i as int];
                        assert(q.topics@[a].topic_id != q.topics@[b].topic_id
                            && q.topics@[a].name@ != q.topics@[b].name@);
                        assert(s.topics@[a].topic_id == q.topics@[a].topic_id
                            && s.topics@[a].name == q.topics@[a].name);
                        assert(s.topics@[b].topic_id == q.topics@[b].topic_id
                            && s.topics@[b].name == q.topics@[b].name);
                    }
                }
                let pre = old(self).streams@.subrange(0, i as int);
                let pre1 = old(self).streams@.subrange(0, i as int + 1);
                assert(pre1.drop_last() =~= pre);
                assert(pre1.last() == old(self).streams@[i as int]);
            }
            i += 1;
        }
        proof {
            assert(old(self).streams@.subrange(0, n as int) =~= old(self).streams@);
            assert forall|a: int, b: int|
                #![trigger self.streams@[a], self.streams@[b]]
                0 <= a < b < self.streams@.len()
                implies self.streams@[a].stream_id != self.streams@[b].stream_id
                    && self.streams@[a].name@ != self.streams@[b].name@ by {
                assert(old(self).streams@[a].stream_id != old(self).streams@[b].stream_id
                    && old(self).streams@[a].name@ != old(self).streams@[b].name@);
                assert(self.streams@[a].stream_id == old(self).streams@[a].stream_id
                    && self.streams@[a].name == old(self).streams@[a].name);
                assert(self.streams@[b].stream_id == old(self).streams@[b].stream_id
                    && self.streams@[b].name == old(self).streams@[b].name);
            }
        }
        count
    }
}

/// A just-created partition at a given position of its topic: well formed,
/// empty, numbered from 1 in order, bound to the system's segment bound.
pub open spec fn fresh_partition(p: Partition, index: int, segment_capacity: usize) -> bool {
    &&& p.inv()
    &&& p.log() =~= Seq::<crate::partition::MessageView>::empty()
    &&& p.next_offset == 0
    &&& p.partition_id == index + 1
    &&& p.segment_capacity == segment_capacity
}

/// Whether an identifier refers to this stream.
fn matches_stream(s: &Stream, id: &Identifier) -> (r: bool)
    ensures
        r == id_matches_stream(*s, id@),
{
    match id {
        Identifier::Numeric(v) => s.stream_id == *v,
        Identifier::Named(n) => bytes_eq(&s.name, n),
    }
}

/// Whether an identifier refers to this topic.
fn matches_topic(t: &Topic, id: &Identifier) -> (r: bool)
    ensures
        r == id_matches_topic(*t, id@),
{
    match id {
        Identifier::Numeric(v) => t.topic_id == *v,
        Identifier::Named(n) => bytes_eq(&t.name, n),
    }
}

/// Index of the first topic the identifier refers to.
fn find_topic(topics: &Vec<Topic>, id: &Identifier) -> (r: Option<usize>)
    ensures
        match r {
            Some(i) => i < topics@.len() && id_matches_topic(topics@[i as int], id@),
            None => !has_topic(topics@, id@),
        },
{
    let mut i: usize = 0;
    while i < topics.len()
        invariant
            i <= topics@.len(),
            forall|k: int| 0 <= k < i
                ==> !id_matches_topic(#[trigger] topics@[k], id@),
        decreases topics@.len() - i,
    {
        if matches_topic(&topics[i], id) {
            return Some(i);
        }
        i += 1;
    }
    None
}

impl System {
    /// Index of the first stream the identifier refers to.
    fn find_stream(&self, id: &Identifier) -> (r: Option<usize>)
        ensures
            match r {
                Some(i) => i < self.streams@.len()
                    && id_matches_stream(self.streams@[i as int], id@),
                None => !has_stream(self.streams@, id@),
            },
    {
        let mut i: usize = 0;
        while i < self.streams.len()
            invariant
                i <= self.streams@.len(),
                forall|k: int| 0 <= k < i
                    ==> !id_matches_stream(#[trigger] self.streams@[k], id@),
            decreases self.streams@.len() - i,
        {
            if matches_stream(&self.streams[i], id) {
                return Some(i);
            }
            i += 1;
        }
        None
    }

    /// Apply a validated-or-rejected `CreatePartitions` command: after the
    /// semantic check of the partition count, resolve the stream and the
    /// topic, and append that many fresh, empty partitions to the topic,
    /// numbered on from the existing ones. Every failure leaves the whole
    /// registry exactly as it was: a rejected command never touches engine
    /// state. `TooManyPartitions` reports a count outside
    /// `[1, MAX_PARTITIONS_COUNT]` — and a topic that the count would take
    /// past that same bound.
    pub fn apply_create_partitions(&mut self, command: &CreatePartitions)
        -> (r: Result<(), IggyError>)
        requires
            old(self).inv(),
        ensures
            final(self).inv(),
            final(self).segment_capacity == old(self).segment_capacity,
            r is Err ==> *final(self) == *old(self),
            ({
                let streams0 = old(self).streams@;
                let count = command.partitions_count as int;
                let valid = 1 <= command.partitions_count <= MAX_PARTITIONS_COUNT;
                &&& (!valid ==> r == Err::<(), IggyError>(IggyError::TooManyPartitions))
                &&& (valid && !has_stream(streams0, command.stream_id@)
                    ==> r == Err::<(), IggyError>(IggyError::StreamIdNotFound))
                &&& (valid && has_stream(streams0, command.stream_id@) ==> ({
                    let si = stream_index(streams0, command.stream_id@);
                    let topics0 = streams0[si].topics@;
                    &&& (!has_topic(topics0, command.topic_id@)
                        ==> r == Err::<(), IggyError>(IggyError::TopicIdNotFound))
                    &&& (has_topic(topics0, command.topic_id@) ==> ({
                        let ti = topic_index(topics0, command.topic_id@);
                        let fits = topics0[ti].partitions@.len() + count
                            <= MAX_PARTITIONS_COUNT;
                        &&& (!fits
                            ==> r == Err::<(), IggyError>(IggyError::TooManyPartitions))
                        &&& (fits ==> ({
                            let streams1 = final(self).streams@;
                            &&& r is Ok
                            &&& streams1 == streams0.update(si, streams1[si])
                            &&& streams1[si].stream_id == streams0[si].stream_id
                            &&& streams1[si].name == streams0[si].name
                            &&& streams1[si].topics@
                                == topics0.update(ti, streams1[si].topics@[ti])
                            &&& streams1[si].topics@[ti].topic_id == topics0[ti].topic_id
                            &&& streams1[si].topics@[ti].name == topics0[ti].name
                            &&& streams1[si].topics@[ti].partitions@.len()
                                == topics0[ti].partitions@.len() + count
                            &&& (forall|j: int| 0 <= j < topics0[ti].partitions@.len()
                                ==> #[trigger] streams1[si].topics@[ti].partitions@[j]
                                    == topics0[ti].partitions@[j])
                            &&& (forall|j: int| topics0[ti].partitions@.len() <= j
                                    < streams1[si].topics@[ti].partitions@.len()
                                ==> fresh_partition(
                                    #[trigger] streams1[si].topics@[ti].partitions@[j],
                                    j, old(self).segment_capacity))
                        }))
                    }))
                }))
            }),
    {
        if command.validate().is_err() {
            return Err(IggyError::TooManyPartitions);
        }
        let si = match self.find_stream(&command.stream_id) {
            Some(i) => i,
            None => {
                return Err(IggyError::StreamIdNotFound);
            },
        };
        proof {
            // Stream IDs and names are unique, so the found match is the one
            // the contract's stream_index denotes.
            let streams0 = old(self).streams@;
            let j = stream_index(streams0, command.stream_id@);
            assert(id_matches_stream(streams0[j], command.stream_id@)
                && 0 <= j < streams0.len());
            if j != si as int {
                match command.stream_id@ {
                    IdentifierView::Numeric(v) => {
                        assert(streams0[j].stream_id == v
                            && streams0[si as int].stream_id == v);
                    },
                    IdentifierView::Named(nm) => {
                        assert(streams0[j].name@ == nm
                            && streams0[si as int].name@ == nm);
                    },
                }
                if j < si as int {
                    assert(streams0[j].stream_id != streams0[si as int].stream_id
                        && streams0[j].name@ != streams0[si as int].name@);
                } else {
                    assert(streams0[si as int].stream_id != streams0[j].stream_id
                        && streams0[si as int].name@ != streams0[j].name@);
                }
            }
            assert(j == si as int);
        }
        let ti = match find_topic(&self.streams[si].topics, &command.topic_id) {
            Some(i) => i,
            None => {
                return Err(IggyError::TopicIdNotFound);
            },
        };
        proof {
            // Topic IDs and names are unique within the stream, so the found
            // match is the one the contract's topic_index denotes.
            let topics0 = old(self).streams@[si as int].topics@;
            let j = topic_index(topics0, command.topic_id@);
            assert(id_matches_topic(topics0[j], command.topic_id@)
                && 0 <= j < topics0.len());
            if j != ti as int {
                match command.topic_id@ {
                    IdentifierView::Numeric(v) => {
                        assert(topics0[j].topic_id == v
                            && topics0[ti as int].topic_id == v);
                    },
                    IdentifierView::Named(nm) => {
                        assert(topics0[j].name@ == nm && topics0[ti as int].name@ == nm);
                    },
                }
                if j < ti as int {
                    assert(topics0[j].topic_id != topics0[ti as int].topic_id
                        && topics0[j].name@ != topics0[ti as int].name@);
                } else {
                    assert(topics0[ti as int].topic_id != topics0[j].topic_id
                        && topics0[ti as int].name@ != topics0[j].name@);
                }
            }
            assert(j == ti as int);
        }
        let count = command.partitions_count as usize;
        if self.streams[si].topics[ti].partitions.len() + count
            > MAX_PARTITIONS_COUNT as usize {
            return Err(IggyError::TooManyPartitions);
        }
        let mut stream = self.streams.remove(si);
        let mut topic = stream.topics.remove(ti);
        let ghost old_topic = topic;
        let base = topic.partitions.len();
        let mut k: usize = 0;
        while k < count
            invariant
                k <= count,
                base + count <= MAX_PARTITIONS_COUNT as usize,
                base == old_topic.partitions@.len(),
                topic.partitions@.len() == base + k,
                topic.topic_id == old_topic.topic_id,
                topic.name == old_topic.name,
                self.segment_capacity == old(self).segment_capacity,
                self.segment_capacity >= 1,
                forall|j: int| 0 <= j < base
                    ==> #[trigger] topic.partitions@[j] == old_topic.partitions@[j],
                forall|j: int| base <= j < base + k
                    ==> fresh_partition(#[trigger] topic.partitions@[j], j,
                        self.segment_capacity),
            decreases count - k,
        {
            let pid = (topic.partitions.len() + 1) as u32;
            let p = Partition::new(pid, self.segment_capacity);
            topic.partitions.push(p);
            k += 1;
        }
        stream.topics.insert(ti, topic);
        self.streams.insert(si, stream);
        proof {
            let streams0 = old(self).streams@;
            let streams1 = self.streams@;
            assert(streams1 =~= streams0.update(si as int, streams1[si as int]));
            assert(streams1[si as int].topics@ =~= streams0[si as int].topics@.update(
                ti as int, streams1[si as int].topics@[ti as int]));
            assert(streams1[si as int].topics@[ti as int] == topic);
            assert forall|i: int| 0 <= i < streams1.len()
                implies (#[trigger] streams1[i]).inv(self.segment_capacity) by {
                if i != si {
                    assert(streams1[i] == streams0[i]);
                } else {
                    assert forall|t: int| 0 <= t < streams1[i].topics@.len()
                        implies (#[trigger] streams1[i].topics@[t]).inv(
                            self.segment_capacity) by {
                        if t != ti {
                            assert(streams1[i].topics@[t] == streams0[i].topics@[t]);
                        } else {
                            assert(streams1[i].topics@[t] == topic);
                            assert forall|j: int| 0 <= j < topic.partitions@.len()
                                implies (#[trigger] topic.partitions@[j]).inv()
                                    && topic.partitions@[j].segment_capacity
                                        == self.segment_capacity
                                    && topic.partitions@[j].partition_id == j + 1 by {
                                if j < base {
                                    assert(topic.partitions@[j]
                                        == old_topic.partitions@[j]);
                                    assert(old_topic == streams0[i].topics@[t]);
                                } else {
                                    assert(fresh_partition(topic.partitions@[j], j,
                                        self.segment_capacity));
                                }
                            }
                        }
                    }
                    assert forall|a: int, b: int|
                        #![trigger streams1[i].topics@[a], streams1[i].topics@[b]]
                        0 <= a < b < streams1[i].topics@.len()
                        implies streams1[i].topics@[a].topic_id
                                != streams1[i].topics@[b].topic_id
                            && streams1[i].topics@[a].name@
                                != streams1[i].topics@[b].name@ by {
                        assert(streams0[i].topics@[a].topic_id
                                != streams0[i].topics@[b].topic_id
                            && streams0[i].topics@[a].name@
                                != streams0[i].topics@[b].name@);
                        assert(streams1[i].topics@[a].topic_id
                                == streams0[i].topics@[a].topic_id
                            && streams1[i].topics@[a].name@ == streams0[i].topics@[a].name@);
                        assert(streams1[i].topics@[b].topic_id
                                == streams0[i].topics@[b].topic_id
                            && streams1[i].topics@[b].name@ == streams0[i].topics@[b].name@);
                    }
                }
            }
            assert forall|a: int, b: int|
                #![trigger streams1[a], streams1[b]]
                0 <= a < b < streams1.len()
                implies streams1[a].stream_id != streams1[b].stream_id
                    && streams1[a].name@ != streams1[b].name@ by {
                assert(streams0[a].stream_id != streams0[b].stream_id
                    && streams0[a].name@ != streams0[b].name@);
                assert(streams1[a].stream_id == streams0[a].stream_id
                    && streams1[a].name@ == streams0[a].name@);
                assert(streams1[b].stream_id == streams0[b].stream_id
                    && streams1[b].name@ == streams0[b].name@);
            }
        }
        Ok(())
    }
}

} // verus!
