//! The `CreatePartitions` command: create new partitions for a topic.
//! Wire layout, fixed and positional: the stream identifier, the topic
//! identifier, then the partition count as a little-endian `u32`.

use vstd::prelude::*;
use vstd::bytes::{spec_u32_from_le_bytes, spec_u32_to_le_bytes, u32_from_le_bytes,
    u32_to_le_bytes, lemma_auto_spec_u32_to_from_le_bytes};
use crate::error::IggyError;
use crate::identifier::{Identifier, IdentifierView, lemma_identifier_round_trip};

verus! {

/// Operation code of the `CreatePartitions` command.
pub const CREATE_PARTITIONS_CODE: u32 = 402;

/// Most partitions one command may create, and most a topic may hold.
pub const MAX_PARTITIONS_COUNT: u32 = 1000;

/// Mathematical value of a [`CreatePartitions`] command.
#[verifier::ext_equal]
pub struct CreatePartitionsView {
    pub stream_id: IdentifierView,
    pub topic_id: IdentifierView,
    pub partitions_count: u32,
}

/// Request to create `partitions_count` partitions under the given topic.
#[derive(Debug)]
pub struct CreatePartitions {
    /// Stream that owns the topic (numeric ID or name).
    pub stream_id: Identifier,
    /// Topic that receives the partitions (numeric ID or name).
    pub topic_id: Identifier,
    /// Number of partitions to create; validation bounds it by
    /// `[1, MAX_PARTITIONS_COUNT]`.
    pub partitions_count: u32,
}

impl View for CreatePartitions {
    type V = CreatePartitionsView;

    open spec fn view(&self) -> CreatePartitionsView {
        CreatePartitionsView {
            stream_id: self.stream_id@,
            topic_id: self.topic_id@,
            partitions_count: self.partitions_count@,
        }
    }
}

impl CreatePartitionsView {
    /// Structurally well-formed command: both identifiers are canonical.
    pub open spec fn valid(self) -> bool {
        self.stream_id.valid() && self.topic_id.valid()
    }

    /// Wire layout of the whole command.
    pub open spec fn encoded(self) -> Seq<u8> {
        self.stream_id.encoded() + self.topic_id.encoded()
            + spec_u32_to_le_bytes(self.partitions_count)
    }

    /// What decoding yields. A buffer below the minimum layout size is
    /// `InvalidCommand`; identifier failures pass through; a tail too short
    /// for the fixed-width count is `InvalidNumberEncoding`. Trailing bytes
    /// beyond the count are ignored.
    pub open spec fn decode(s: Seq<u8>) -> Result<CreatePartitionsView, IggyError> {
        if s.len() < 10 {
            Err(IggyError::InvalidCommand)
        } else {
            match IdentifierView::decode(s) {
                Err(e) => Err(e),
                Ok((stream_id, n1)) => match IdentifierView::decode(s.skip(n1)) {
                    Err(e) => Err(e),
                    Ok((topic_id, n2)) => if s.len() < n1 + n2 + 4 {
                        Err(IggyError::InvalidNumberEncoding)
                    } else {
                        Ok(CreatePartitionsView {
                            stream_id,
                            topic_id,
                            partitions_count: spec_u32_from_le_bytes(
                                s.subrange(n1 + n2, n1 + n2 + 4)),
                        })
                    },
                },
            }
        }
    }
}

/// A canonical identifier encodes to at least 3 and at most 257 bytes.
proof fn lemma_encoded_id_len(id: IdentifierView)
    requires
        id.valid(),
    ensures
        3 <= id.encoded().len() <= 257,
{
    lemma_auto_spec_u32_to_from_le_bytes();
}

/// Round trip: decoding what a structurally valid command encodes to gives
/// back exactly that command.
pub proof fn lemma_create_partitions_round_trip(c: CreatePartitionsView)
    requires
        c.valid(),
    ensures
        CreatePartitionsView::decode(c.encoded())
            == Ok::<CreatePartitionsView, IggyError>(c),
{
    lemma_auto_spec_u32_to_from_le_bytes();
    let e1 = c.stream_id.encoded();
    let e2 = c.topic_id.encoded();
    let le = spec_u32_to_le_bytes(c.partitions_count);
    let s = c.encoded();
    lemma_encoded_id_len(c.stream_id);
    lemma_encoded_id_len(c.topic_id);
    assert(s =~= e1 + (e2 + le));
    lemma_identifier_round_trip(c.stream_id, e2 + le);
    let n1 = e1.len() as int;
    assert(s.skip(n1) =~= e2 + le);
    lemma_identifier_round_trip(c.topic_id, le);
    let n2 = e2.len() as int;
    assert(s.subrange(n1 + n2, n1 + n2 + 4) =~= le);
}

impl CreatePartitions {
    /// Operation code carried out-of-band by the transport framing.
    pub fn code(&self) -> (code: u32)
        ensures
            code == CREATE_PARTITIONS_CODE,
    {
        CREATE_PARTITIONS_CODE
    }

    /// Semantic check run after decode and before dispatch: the partition
    /// count must lie in `[1, MAX_PARTITIONS_COUNT]`. Side-effect-free;
    /// succeeds if and only if the bound holds, and the one failure it
    /// reports is `TooManyPartitions`.
    pub fn validate(&self) -> (r: Result<(), IggyError>)
        ensures
            r is Ok <==> 1 <= self.partitions_count <= MAX_PARTITIONS_COUNT,
            r is Err ==> r == Err::<(), IggyError>(IggyError::TooManyPartitions),
    {
        if self.partitions_count < 1 || self.partitions_count > MAX_PARTITIONS_COUNT {
            return Err(IggyError::TooManyPartitions);
        }
        Ok(())
    }

    /// Encode onto the wire.
    pub fn to_bytes(&self) -> (r: Vec<u8>)
        requires
            self@.valid(),
        ensures
            r@ == self@.encoded(),
    {
        let mut bytes = self.stream_id.to_bytes();
        let mut topic_bytes = self.topic_id.to_bytes();
        bytes.append(&mut topic_bytes);
        let mut count_bytes = u32_to_le_bytes(self.partitions_count);
        bytes.append(&mut count_bytes);
        proof {
            assert(bytes@ =~= self@.encoded());
        }
        bytes
    }

    /// Decode from the wire; pure, and exactly as
    /// [`CreatePartitionsView::decode`] says.
    pub fn from_bytes(bytes: &Vec<u8>) -> (r: Result<CreatePartitions, IggyError>)
        ensures
            ({
                match CreatePartitionsView::decode(bytes@) {
                    Ok(v) => r matches Ok(c) && c@ == v && c@.valid(),
                    Err(e) => r == Err::<CreatePartitions, IggyError>(e),
                }
            }),
    {
        proof {
            assert(bytes@.skip(0) =~= bytes@);
        }
        if bytes.len() < 10 {
            return Err(IggyError::InvalidCommand);
        }
        let (stream_id, n1) = match Identifier::from_bytes_at(bytes, 0) {
            Ok(p) => p,
            Err(e) => {
                return Err(e);
            },
        };
        let (topic_id, n2) = match Identifier::from_bytes_at(bytes, n1) {
            Ok(p) => p,
            Err(e) => {
                return Err(e);
            },
        };
        let position = n1 + n2;
        if bytes.len() - position < 4 {
            return Err(IggyError::InvalidNumberEncoding);
        }
        let mut le: Vec<u8> = Vec::new();
        le.push(bytes[position]);
        le.push(bytes[position + 1]);
        le.push(bytes[position + 2]);
        le.push(bytes[position + 3]);
        proof {
            assert(le@ =~= bytes@.subrange(n1 as int + n2 as int, n1 as int + n2 as int + 4));
        }
        let partitions_count = u32_from_le_bytes(le.as_slice());
        Ok(CreatePartitions { stream_id, topic_id, partitions_count })
    }
}

impl PartialEq for CreatePartitions {
    fn eq(&self, other: &CreatePartitions) -> (r: bool) {
        self.stream_id == other.stream_id && self.topic_id == other.topic_id
            && self.partitions_count == other.partitions_count
    }
}

impl vstd::std_specs::cmp::PartialEqSpecImpl for CreatePartitions {
    open spec fn obeys_eq_spec() -> bool {
        true
    }

    open spec fn eq_spec(&self, other: &CreatePartitions) -> bool {
        self@ == other@
    }
}

impl Default for CreatePartitions {
    /// The default command targets stream 1 and topic 1 with one partition.
    fn default() -> (r: CreatePartitions)
        ensures
            r@.stream_id == IdentifierView::Numeric(1),
            r@.topic_id == IdentifierView::Numeric(1),
            r@.partitions_count == 1,
            r@.valid(),
    {
        CreatePartitions {
            stream_id: Identifier::Numeric(1),
            topic_id: Identifier::Numeric(1),
            partitions_count: 1,
        }
    }
}

} // verus!
