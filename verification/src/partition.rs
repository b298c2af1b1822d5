//! The partition log: an append-only, per-partition message store organized
//! into bounded segments, with an in-memory write buffer for messages that
//! are appended but not yet persisted. Exactly one segment — the last — is
//! open at a time; when an append would take the open segment past its
//! bound, the segment is flushed and sealed and a new one is opened.

use vstd::prelude::*;

verus! {

/// One stored message: the offset assigned at append time and the payload.
#[derive(Debug)]
pub struct Message {
    pub offset: u64,
    pub payload: Vec<u8>,
}

/// Mathematical value of a [`Message`].
#[verifier::ext_equal]
pub struct MessageView {
    pub offset: u64,
    pub payload: Seq<u8>,
}

impl View for Message {
    type V = MessageView;

    open spec fn view(&self) -> MessageView {
        MessageView { offset: self.offset, payload: self.payload@ }
    }
}

/// The views of a run of messages, in order.
pub open spec fn msgs_view(s: Seq<Message>) -> Seq<MessageView> {
    s.map_values(|m: Message| m@)
}

/// A bounded, sequentially written chunk of a partition's log. `messages`
/// holds what has been persisted into the segment; its start offset plus a
/// message's position within the segment is that message's offset.
#[derive(Debug)]
pub struct Segment {
    /// Offset of the first message of this segment.
    pub start_offset: u64,
    /// Persisted messages, in offset order.
    pub messages: Vec<Message>,
    /// A sealed segment is immutable; only the open (last) segment grows.
    pub sealed: bool,
}

impl Segment {
    /// Offset one past the last message persisted in this segment.
    pub open spec fn end_offset(self) -> int {
        self.start_offset + self.messages@.len()
    }
}

/// The persisted log of a run of segments: their messages, concatenated in
/// segment order.
pub open spec fn segments_log(segs: Seq<Segment>) -> Seq<MessageView>
    decreases segs.len(),
{
    if segs.len() == 0 {
        Seq::empty()
    } else {
        segments_log(segs.drop_last()) + msgs_view(segs.last().messages@)
    }
}

/// The unit of ordering and storage: a monotonically increasing next-offset
/// counter, an ordered run of segments, and a bounded write buffer of
/// messages appended but not yet persisted (the open segment's write buffer).
#[derive(Debug)]
pub struct Partition {
    pub partition_id: u32,
    /// Most messages one segment may hold; the rollover bound.
    pub segment_capacity: usize,
    /// Ordered segments; all but the last are sealed and full.
    pub segments: Vec<Segment>,
    /// Appended, not yet persisted; flush drains it into the open segment.
    pub buffer: Vec<Message>,
    /// The offset the next appended message receives.
    pub next_offset: u64,
}

impl Partition {
    /// Segment starts are chained: the log starts at offset 0 and each
    /// segment begins where the previous one ends.
    pub open spec fn starts_chained(self) -> bool {
        &&& self.segments@[0].start_offset == 0
        &&& forall|i: int| 0 <= i < self.segments@.len() - 1
            ==> (#[trigger] self.segments@[i + 1].start_offset)
                == self.segments@[i].end_offset()
    }

    /// Every stored message carries the offset of its position in the log.
    pub open spec fn offsets_ok(self) -> bool {
        &&& forall|i: int, j: int| 0 <= i < self.segments@.len()
            && 0 <= j < self.segments@[i].messages@.len()
            ==> (#[trigger] self.segments@[i].messages@[j])@.offset
                == self.segments@[i].start_offset + j
        &&& forall|j: int| 0 <= j < self.buffer@.len()
            ==> (#[trigger] self.buffer@[j])@.offset
                == self.segments@.last().end_offset() + j
    }

    /// Well-formedness: one open segment at the end, sealed segments full,
    /// chained starts, per-message offsets, and a next-offset counter that
    /// counts every message appended so far.
    pub open spec fn inv(self) -> bool {
        &&& self.segments@.len() >= 1
        &&& self.segment_capacity >= 1
        &&& forall|i: int| 0 <= i < self.segments@.len()
            ==> ((#[trigger] self.segments@[i].sealed) <==> i != self.segments@.len() - 1)
        &&& forall|i: int| 0 <= i < self.segments@.len() - 1
            ==> (#[trigger] self.segments@[i].messages@.len()) == self.segment_capacity
        &&& self.segments@.last().messages@.len() + self.buffer@.len() <= self.segment_capacity
        &&& self.starts_chained()
        &&& self.offsets_ok()
        &&& self.next_offset == self.segments@.last().end_offset() + self.buffer@.len()
    }

    /// What has been durably persisted, in offset order.
    pub open spec fn persisted(self) -> Seq<MessageView> {
        segments_log(self.segments@)
    }

    /// The whole log: persisted messages followed by the write buffer.
    pub open spec fn log(self) -> Seq<MessageView> {
        self.persisted() + msgs_view(self.buffer@)
    }

    /// A fresh, empty partition with one open segment.
    pub fn new(partition_id: u32, segment_capacity: usize) -> (p: Partition)
        requires
            segment_capacity >= 1,
        ensures
            p.inv(),
            p.partition_id == partition_id,
            p.segment_capacity == segment_capacity,
            p.log() =~= Seq::<MessageView>::empty(),
            p.next_offset == 0,
    {
        let mut segments: Vec<Segment> = Vec::new();
        segments.push(Segment { start_offset: 0, messages: Vec::new(), sealed: false });
        let p = Partition {
            partition_id,
            segment_capacity,
            segments,
            buffer: Vec::new(),
            next_offset: 0,
        };
        proof {
            assert(p.segments@.drop_last() =~= Seq::<Segment>::empty());
            assert(segments_log(p.segments@.drop_last()) =~= Seq::<MessageView>::empty());
            assert(segments_log(p.segments@) =~= msgs_view(p.segments@.last().messages@));
            assert(p.log() =~= Seq::<MessageView>::empty());
        }
        p
    }
}

/// Chained starts make each start offset the length of the log before it;
/// hence the persisted log ends at the open segment's end, and the message
/// at position `start_offset(i) + j` of the persisted log is message `j` of
/// segment `i`.
proof fn lemma_log_structure(segs: Seq<Segment>)
    requires
        segs.len() >= 1,
        segs[0].start_offset == 0,
        forall|i: int| 0 <= i < segs.len() - 1
            ==> (#[trigger] segs[i + 1].start_offset) == segs[i].end_offset(),
    ensures
        segments_log(segs).len() == segs.last().end_offset(),
        forall|i: int| 0 <= i < segs.len()
            ==> (#[trigger] segs[i].end_offset()) <= segments_log(segs).len(),
        forall|i: int, j: int| 0 <= i < segs.len() && 0 <= j < segs[i].messages@.len()
            ==> segments_log(segs)[segs[i].start_offset + j]
                == (#[trigger] segs[i].messages@[j])@,
    decreases segs.len(),
{
    let log = segments_log(segs);
    let last = segs.last();
    if segs.len() == 1 {
        assert(segs.drop_last() =~= Seq::<Segment>::empty());
        assert(segments_log(segs.drop_last()) =~= Seq::<MessageView>::empty());
        assert(log =~= msgs_view(last.messages@));
        assert forall|i: int, j: int| 0 <= i < segs.len() && 0 <= j < segs[i].messages@.len()
            implies log[segs[i].start_offset + j] == (#[trigger] segs[i].messages@[j])@ by {
            assert(i == 0);
            assert(segs[i].start_offset == 0);
            assert(log.len() == msgs_view(segs[0].messages@).len());
            assert(log[j] == msgs_view(segs[0].messages@)[j]);
        }
    } else {
        let prefix = segs.drop_last();
        assert(prefix[0] == segs[0]);
        assert forall|i: int| 0 <= i < prefix.len() - 1
            implies (#[trigger] prefix[i + 1].start_offset) == prefix[i].end_offset() by {
            assert(prefix[i + 1] == segs[i + 1]);
            assert(prefix[i] == segs[i]);
            assert(segs[i + 1].start_offset == segs[i].end_offset());
        }
        lemma_log_structure(prefix);
        assert(prefix.last() == segs[segs.len() - 2]);
        assert(segs[(segs.len() - 2) + 1].start_offset == segs[segs.len() - 2].end_offset());
        assert(last == segs[segs.len() - 1]);
        assert(last.start_offset == segs[segs.len() - 2].end_offset());
        assert(log == segments_log(prefix) + msgs_view(last.messages@));
        assert(log.len() == last.end_offset());
        assert forall|i: int| 0 <= i < segs.len()
            implies (#[trigger] segs[i].end_offset()) <= log.len() by {
            if i < segs.len() - 1 {
                assert(prefix[i] == segs[i]);
                assert(prefix[i].end_offset() <= segments_log(prefix).len());
                assert(log.len() == segments_log(prefix).len()
                    + msgs_view(last.messages@).len());
            }
        }
        assert forall|i: int, j: int| 0 <= i < segs.len() && 0 <= j < segs[i].messages@.len()
            implies log[segs[i].start_offset + j] == (#[trigger] segs[i].messages@[j])@ by {
            if i < segs.len() - 1 {
                assert(prefix[i] == segs[i]);
                assert(prefix[i].messages@[j] == segs[i].messages@[j]);
                assert(prefix[i].end_offset() <= segments_log(prefix).len());
                assert(prefix[i].start_offset + j < segments_log(prefix).len());
                assert(segments_log(prefix)[prefix[i].start_offset + j]
                    == prefix[i].messages@[j]@);
                assert(log.len() == segments_log(prefix).len()
                    + msgs_view(last.messages@).len());
                assert(log[segs[i].start_offset + j]
                    == segments_log(prefix)[segs[i].start_offset + j]);
            } else {
                assert(last.start_offset == segments_log(prefix).len());
                assert(log.len() == segments_log(prefix).len()
                    + msgs_view(last.messages@).len());
                assert(j < msgs_view(last.messages@).len());
                assert(log[last.start_offset + j] == msgs_view(last.messages@)[j]);
            }
        }
    }
}

impl Partition {
    /// The log is gapless from offset 0: position `i` holds offset `i`, and
    /// the next-offset counter equals the log's length. Offsets therefore
    /// strictly increase, and the offsets handed out by the first `n`
    /// appends are exactly `0 .. n-1`, each to exactly one message.
    pub proof fn lemma_offsets_gapless(self)
        requires
            self.inv(),
        ensures
            self.log().len() == self.next_offset,
            forall|i: int| 0 <= i < self.log().len()
                ==> (#[trigger] self.log()[i]).offset == i,
            forall|i: int, j: int| 0 <= i < j < self.log().len()
                ==> (#[trigger] self.log()[i]).offset < (#[trigger] self.log()[j]).offset,
    {
        lemma_log_structure(self.segments@);
        let plen = self.persisted().len() as int;
        assert forall|i: int| 0 <= i < self.log().len()
            implies (#[trigger] self.log()[i]).offset == i by {
            if i >= plen {
                assert(self.log()[i] == self.buffer@[i - plen]@);
            } else {
                self.lemma_persisted_offset(i);
            }
        }
    }

    /// Offset `i` of the persisted log is held by the message at position
    /// `i - start_offset` of the segment whose range covers `i`.
    proof fn lemma_persisted_offset(self, i: int)
        requires
            self.inv(),
            0 <= i < self.persisted().len(),
        ensures
            self.persisted()[i].offset == i,
    {
        lemma_log_structure(self.segments@);
        let segs = self.segments@;
        // Walk to the segment that covers position i.
        let k = choose|k: int| 0 <= k < segs.len()
            && (#[trigger] segs[k].start_offset) <= i < segs[k].end_offset();
        self.lemma_some_segment_covers(i, 0);
        assert(self.persisted()[i] == segs[k].messages@[i - segs[k].start_offset]@);
    }

    /// Every position of the persisted log lies in some segment's range.
    proof fn lemma_some_segment_covers(self, i: int, from: int)
        requires
            self.inv(),
            0 <= from < self.segments@.len(),
            self.segments@[from].start_offset <= i < self.persisted().len(),
        ensures
            exists|k: int| 0 <= k < self.segments@.len()
                && (#[trigger] self.segments@[k].start_offset) <= i
                && i < self.segments@[k].end_offset(),
        decreases self.segments@.len() - from,
    {
        lemma_log_structure(self.segments@);
        let segs = self.segments@;
        if i < segs[from].end_offset() {
            assert(segs[from].start_offset <= i < segs[from].end_offset());
        } else {
            assert(from < segs.len() - 1) by {
                if from == segs.len() - 1 {
                    assert(self.persisted().len() == segs.last().end_offset());
                }
            }
            assert(segs[from + 1].start_offset == segs[from].end_offset());
            self.lemma_some_segment_covers(i, from + 1);
        }
    }

    /// The sequence of offsets held by the log is exactly `0, 1, .., len-1`:
    /// no duplicates, no gaps, starting at 0.
    pub proof fn lemma_offsets_complete(self)
        requires
            self.inv(),
        ensures
            self.log().map_values(|m: MessageView| m.offset)
                =~= Seq::new(self.log().len(), |i: int| i as u64),
    {
        self.lemma_offsets_gapless();
    }
}

/// Byte-for-byte copy of a payload.
pub fn clone_bytes(v: &Vec<u8>) -> (r: Vec<u8>)
    ensures
        r@ == v@,
{
    let mut out: Vec<u8> = Vec::new();
    let mut i: usize = 0;
    while i < v.len()
        invariant
            i <= v@.len(),
            out@ == v@.subrange(0, i as int),
        decreases v@.len() - i,
    {
        out.push(v[i]);
        proof {
            assert(v@.subrange(0, i as int).push(v@[i as int])
                =~= v@.subrange(0, (i + 1) as int));
        }
        i += 1;
    }
    proof {
        assert(v@.subrange(0, v@.len() as int) =~= v@);
    }
    out
}

/// Copy of a message, byte for byte.
pub fn clone_message(m: &Message) -> (r: Message)
    ensures
        r@ == m@,
{
    Message { offset: m.offset, payload: clone_bytes(&m.payload) }
}

impl Partition {
    /// Copy of the message at offset `g`, resolved through the index: a
    /// binary search over segment start offsets, then the intra-segment
    /// position; offsets behind the persisted log land in the write buffer.
    fn msg_at(&self, g: u64) -> (m: Message)
        requires
            self.inv(),
            g < self.next_offset,
        ensures
            m@ == self.log()[g as int],
    {
        proof {
            lemma_log_structure(self.segments@);
        }
        let last = self.segments.len() - 1;
        let persisted_end = self.segments[last].start_offset
            + self.segments[last].messages.len() as u64;
        if g >= persisted_end {
            let idx = (g - persisted_end) as usize;
            clone_message(&self.buffer[idx])
        } else {
            let mut lo: usize = 0;
            let mut hi: usize = self.segments.len();
            while hi - lo > 1
                invariant
                    self.inv(),
                    lo < hi <= self.segments@.len(),
                    self.segments@[lo as int].start_offset <= g,
                    hi < self.segments@.len()
                        ==> g < self.segments@[hi as int].start_offset,
                decreases hi - lo,
            {
                let mid = lo + (hi - lo) / 2;
                if self.segments[mid].start_offset <= g {
                    lo = mid;
                } else {
                    hi = mid;
                }
            }
            proof {
                if lo < self.segments@.len() - 1 {
                    assert(self.segments@[lo as int + 1].start_offset
                        == self.segments@[lo as int].end_offset());
                }
                assert(g < self.segments@[lo as int].end_offset());
            }
            let idx = (g - self.segments[lo].start_offset) as usize;
            let m = clone_message(&self.segments[lo].messages[idx]);
            proof {
                assert(segments_log(self.segments@)[
                    self.segments@[lo as int].start_offset + idx]
                    == self.segments@[lo as int].messages@[idx as int]@);
            }
            m
        }
    }

    /// Read up to `limit` consecutive messages starting at `offset`: exactly
    /// the log between `offset` and `offset + limit`, cut off at the end of
    /// the log. An offset at or past the end yields an empty result — "no
    /// data yet" is not a failure. Pure: the partition is not touched.
    pub fn read(&self, offset: u64, limit: usize) -> (msgs: Vec<Message>)
        requires
            self.inv(),
        ensures
            ({
                let len = self.log().len() as int;
                let start = if offset as int <= len { offset as int } else { len };
                let end = if offset + limit <= len { offset + limit } else { len };
                msgs_view(msgs@) == self.log().subrange(start, end)
            }),
    {
        proof {
            self.lemma_offsets_gapless();
        }
        let mut out: Vec<Message> = Vec::new();
        if offset >= self.next_offset {
            proof {
                assert(msgs_view(out@) =~= Seq::<MessageView>::empty());
                assert(self.log().subrange(self.log().len() as int,
                    self.log().len() as int) =~= Seq::<MessageView>::empty());
            }
            return out;
        }
        let remaining = self.next_offset - offset;
        let take: u64 = if (limit as u64) < remaining { limit as u64 } else { remaining };
        let mut k: u64 = 0;
        while k < take
            invariant
                self.inv(),
                self.log().len() == self.next_offset,
                offset + take <= self.next_offset,
                k <= take,
                msgs_view(out@) == self.log().subrange(offset as int, offset + k),
            decreases take - k,
        {
            let m = self.msg_at(offset + k);
            let ghost prev = out@;
            out.push(m);
            proof {
                assert(msgs_view(out@) =~= msgs_view(prev).push(m@));
                assert(self.log().subrange(offset as int, offset + k).push(
                    self.log()[offset + k])
                    =~= self.log().subrange(offset as int, offset + (k + 1)));
            }
            k += 1;
        }
        proof {
            let len = self.log().len() as int;
            let end = if offset + limit <= len { offset + limit } else { len };
            assert(offset + take == end);
        }
        out
    }
}

impl Partition {
    /// Append one message: assign the next offset, store the message in the
    /// open segment's write buffer, return the assigned offset. If the open
    /// segment is full, it is flushed and sealed and a new segment is opened
    /// first, within this same exclusive access.
    pub fn append(&mut self, payload: Vec<u8>) -> (offset: u64)
        requires
            old(self).inv(),
            old(self).next_offset < u64::MAX,
        ensures
            final(self).inv(),
            offset == old(self).next_offset,
            final(self).next_offset == old(self).next_offset + 1,
            final(self).log() =~= old(self).log().push(
                MessageView { offset, payload: payload@ }),
            final(self).partition_id == old(self).partition_id,
            final(self).segment_capacity == old(self).segment_capacity,
    {
        let ghost old_self = *self;
        let last = self.segments.len() - 1;
        let open_len = self.segments[last].messages.len();
        if open_len + self.buffer.len() >= self.segment_capacity {
            self.seal_open_segment();
        }
        proof {
            assert(self.log() =~= old_self.log());
        }
        let message = Message { offset: self.next_offset, payload };
        let ghost mid_self = *self;
        self.buffer.push(message);
        self.next_offset = self.next_offset + 1;
        proof {
            assert(msgs_view(self.buffer@)
                =~= msgs_view(mid_self.buffer@).push(message@));
            assert(self.log() =~= mid_self.log().push(message@));
        }
        self.next_offset - 1
    }

    /// Flush the write buffer into the open segment, seal it, and open a
    /// fresh segment starting at the next offset. The log itself is
    /// unchanged; everything in it is now persisted.
    fn seal_open_segment(&mut self)
        requires
            old(self).inv(),
            old(self).segments@.last().messages@.len() + old(self).buffer@.len()
                == old(self).segment_capacity,
        ensures
            final(self).inv(),
            final(self).log() =~= old(self).log(),
            final(self).persisted() =~= old(self).log(),
            final(self).buffer@.len() == 0,
            final(self).next_offset == old(self).next_offset,
            final(self).partition_id == old(self).partition_id,
            final(self).segment_capacity == old(self).segment_capacity,
            final(self).segments@.last().messages@.len() == 0,
    {
        let ghost old_self = *self;
        let mut open_segment = match self.segments.pop() {
            Some(s) => s,
            None => {
                proof {
                    assert(false);
                }
                vstd::pervasive::unreached()
            },
        };
        let ghost prefix = self.segments@;
        open_segment.messages.append(&mut self.buffer);
        open_segment.sealed = true;
        let new_start = self.next_offset;
        self.segments.push(open_segment);
        self.segments.push(Segment { start_offset: new_start, messages: Vec::new(), sealed: false });
        proof {
            let segs = self.segments@;
            assert(segs.drop_last().drop_last() =~= prefix);
            assert(segs.drop_last().last() == open_segment);
            assert(msgs_view(open_segment.messages@)
                =~= msgs_view(old_self.segments@.last().messages@)
                    + msgs_view(old_self.buffer@));
            assert(segments_log(segs.drop_last())
                == segments_log(prefix) + msgs_view(open_segment.messages@));
            assert(segments_log(segs)
                == segments_log(segs.drop_last()) + msgs_view(Seq::<Message>::empty()));
            assert(msgs_view(Seq::<Message>::empty()) =~= Seq::<MessageView>::empty());
            assert(self.persisted() =~= old_self.log());
            assert(self.log() =~= old_self.log());
            assert forall|i: int| 0 <= i < segs.len() - 1
                implies (#[trigger] segs[i].messages@.len()) == self.segment_capacity by {
                if i < segs.len() - 2 {
                    assert(segs[i] == old_self.segments@[i]);
                    assert(old_self.segments@[i].messages@.len()
                        == old_self.segment_capacity);
                } else {
                    assert(segs[i] == open_segment);
                    assert(open_segment.messages@.len()
                        == old_self.segments@.last().messages@.len()
                            + old_self.buffer@.len());
                    assert(self.segment_capacity == old_self.segment_capacity);
                }
            }
            assert forall|i: int| 0 <= i < segs.len() - 1
                implies (#[trigger] segs[i + 1].start_offset) == segs[i].end_offset() by {
                if i + 1 < segs.len() - 2 {
                    assert(segs[i] == old_self.segments@[i]);
                    assert(segs[i + 1] == old_self.segments@[i + 1]);
                } else if i + 1 == segs.len() - 2 {
                    assert(segs[i] == old_self.segments@[i]);
                    assert(segs[i + 1] == open_segment);
                    assert(old_self.segments@[i + 1].start_offset
                        == old_self.segments@[i].end_offset());
                    assert(old_self.segments@[i + 1] == old_self.segments@.last());
                } else {
                    assert(segs[i] == open_segment);
                    assert(open_segment.end_offset() == old_self.next_offset);
                }
            }
            assert forall|i: int, j: int| 0 <= i < segs.len()
                && 0 <= j < segs[i].messages@.len()
                implies (#[trigger] segs[i].messages@[j])@.offset
                    == segs[i].start_offset + j by {
                if i < segs.len() - 2 {
                    assert(segs[i] == old_self.segments@[i]);
                    assert(old_self.segments@[i].messages@[j]@.offset
                        == old_self.segments@[i].start_offset + j);
                } else if i == segs.len() - 2 {
                    assert(segs[i] == open_segment);
                    let old_last = old_self.segments@.last();
                    if j < old_last.messages@.len() {
                        assert(open_segment.messages@[j] == old_last.messages@[j]);
                        assert(old_self.segments@[old_self.segments@.len() - 1]
                            .messages@[j]@.offset == old_last.start_offset + j);
                    } else {
                        let bj = j - old_last.messages@.len();
                        assert(open_segment.messages@[j] == old_self.buffer@[bj]);
                        assert(old_self.buffer@[bj]@.offset
                            == old_last.end_offset() + bj);
                    }
                }
            }
        }
    }

    /// Drain the write buffer into the open segment's backing storage and
    /// return how many messages that persisted. The log is unchanged; with
    /// nothing newly appended since the last flush, nothing is persisted and
    /// the partition — its segments and their contents included — is exactly
    /// as it was. `force_fsync` asks the storage edge for a durability
    /// barrier after the drain; it does not change what is persisted.
    pub fn flush(&mut self, force_fsync: bool) -> (count: usize)
        requires
            old(self).inv(),
        ensures
            final(self).inv(),
            count == old(self).buffer@.len(),
            final(self).buffer@.len() == 0,
            final(self).persisted() =~= old(self).log(),
            final(self).log() =~= old(self).log(),
            final(self).next_offset == old(self).next_offset,
            final(self).partition_id == old(self).partition_id,
            final(self).segment_capacity == old(self).segment_capacity,
            final(self).segments@.len() == old(self).segments@.len(),
            old(self).buffer@.len() == 0 ==> *final(self) == *old(self),
    {
        let _ = force_fsync;
        if self.buffer.len() == 0 {
            return 0;
        }
        let ghost old_self = *self;
        let count = self.buffer.len();
        let mut open_segment = match self.segments.pop() {
            Some(s) => s,
            None => {
                proof {
                    assert(false);
                }
                vstd::pervasive::unreached()
            },
        };
        let ghost prefix = self.segments@;
        open_segment.messages.append(&mut self.buffer);
        self.segments.push(open_segment);
        proof {
            let segs = self.segments@;
            assert(segs.drop_last() =~= prefix);
            assert(segs.last() == open_segment);
            assert(msgs_view(open_segment.messages@)
                =~= msgs_view(old_self.segments@.last().messages@)
                    + msgs_view(old_self.buffer@));
            assert(segments_log(segs)
                == segments_log(prefix) + msgs_view(open_segment.messages@));
            assert(self.persisted() =~= old_self.log());
            assert(self.log() =~= old_self.log());
            assert forall|i: int| 0 <= i < segs.len() - 1
                implies (#[trigger] segs[i].messages@.len())
                    == self.segment_capacity by {
                assert(segs[i] == old_self.segments@[i]);
            }
            assert forall|i: int| 0 <= i < segs.len() - 1
                implies (#[trigger] segs[i + 1].start_offset)
                    == segs[i].end_offset() by {
                assert(segs[i] == old_self.segments@[i]);
                assert(old_self.segments@[i + 1].start_offset
                    == old_self.segments@[i].end_offset());
                if i + 1 < segs.len() - 1 {
                    assert(segs[i + 1] == old_self.segments@[i + 1]);
                } else {
                    assert(segs[i + 1] == open_segment);
                    assert(open_segment.start_offset
                        == old_self.segments@[i + 1].start_offset);
                }
            }
            assert forall|i: int, j: int| 0 <= i < segs.len()
                && 0 <= j < segs[i].messages@.len()
                implies (#[trigger] segs[i].messages@[j])@.offset
                    == segs[i].start_offset + j by {
                if i < segs.len() - 1 {
                    assert(segs[i] == old_self.segments@[i]);
                    assert(old_self.segments@[i].messages@[j]@.offset
                        == old_self.segments@[i].start_offset + j);
                } else {
                    assert(segs[i] == open_segment);
                    let old_last = old_self.segments@.last();
                    if j < old_last.messages@.len() {
                        assert(open_segment.messages@[j] == old_last.messages@[j]);
                        assert(old_self.segments@[old_self.segments@.len() - 1]
                            .messages@[j]@.offset == old_last.start_offset + j);
                    } else {
                        let bj = j - old_last.messages@.len();
                        assert(open_segment.messages@[j] == old_self.buffer@[bj]);
                        assert(old_self.buffer@[bj]@.offset
                            == old_last.end_offset() + bj);
                    }
                }
            }
        }
        count
    }
}

} // verus!
