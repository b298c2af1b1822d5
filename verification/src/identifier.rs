//! Stream and topic identifiers: a tagged value that is either a numeric ID
//! or a name, canonicalized on construction, with a self-describing wire
//! layout (a discriminant byte, a length byte, then the value bytes).

use vstd::prelude::*;
use vstd::bytes::{spec_u32_from_le_bytes, spec_u32_to_le_bytes, u32_from_le_bytes,
    u32_to_le_bytes, lemma_auto_spec_u32_to_from_le_bytes};
use crate::error::IggyError;

verus! {

/// Discriminant byte of a numeric identifier on the wire.
pub const NUMERIC_KIND: u8 = 1;

/// Discriminant byte of a named identifier on the wire.
pub const NAME_KIND: u8 = 2;

/// Longest accepted name, in bytes; the wire length field is a single byte.
pub const MAX_NAME_LENGTH: usize = 255;

/// Mathematical value of an [`Identifier`].
#[verifier::ext_equal]
pub enum IdentifierView {
    Numeric(u32),
    Named(Seq<u8>),
}

/// A stream or topic reference: a numeric ID or a name.
#[derive(Debug, Clone)]
pub enum Identifier {
    /// Reference by numeric ID; canonical IDs are nonzero.
    Numeric(u32),
    /// Reference by name; canonical names hold 1 to [`MAX_NAME_LENGTH`] bytes.
    Named(Vec<u8>),
}

impl View for Identifier {
    type V = IdentifierView;

    open spec fn view(&self) -> IdentifierView {
        match self {
            Identifier::Numeric(v) => IdentifierView::Numeric(*v),
            Identifier::Named(name) => IdentifierView::Named(name@),
        }
    }
}

impl IdentifierView {
    /// Canonical identifiers: numeric IDs are nonzero, names hold 1 to 255 bytes.
    pub open spec fn valid(self) -> bool {
        match self {
            IdentifierView::Numeric(v) => v != 0,
            IdentifierView::Named(name) => 1 <= name.len() <= MAX_NAME_LENGTH,
        }
    }

    /// Wire layout of one identifier: discriminant byte, length byte, value bytes.
    pub open spec fn encoded(self) -> Seq<u8> {
        match self {
            IdentifierView::Numeric(v) => seq![NUMERIC_KIND, 4u8] + spec_u32_to_le_bytes(v),
            IdentifierView::Named(name) => seq![NAME_KIND, name.len() as u8] + name,
        }
    }

    /// What decoding from the front of `s` yields: the identifier and the
    /// number of bytes it occupies, or the failure. Trailing bytes are for
    /// the caller. A buffer shorter than the declared layout is
    /// `InvalidCommand`; a discriminant, length or value that no canonical
    /// identifier encodes to is `InvalidIdentifier`.
    pub open spec fn decode(s: Seq<u8>) -> Result<(IdentifierView, int), IggyError> {
        if s.len() < 2 {
            Err(IggyError::InvalidCommand)
        } else {
            let kind = s[0];
            let length = s[1];
            if kind == NUMERIC_KIND {
                if length != 4 {
                    Err(IggyError::InvalidIdentifier)
                } else if s.len() < 6 {
                    Err(IggyError::InvalidCommand)
                } else {
                    let v = spec_u32_from_le_bytes(s.subrange(2, 6));
                    if v == 0 {
                        Err(IggyError::InvalidIdentifier)
                    } else {
                        Ok((IdentifierView::Numeric(v), 6))
                    }
                }
            } else if kind == NAME_KIND {
                if length == 0 {
                    Err(IggyError::InvalidIdentifier)
                } else if s.len() < 2 + length {
                    Err(IggyError::InvalidCommand)
                } else {
                    Ok((IdentifierView::Named(s.subrange(2, 2 + length)), 2 + length))
                }
            } else {
                Err(IggyError::InvalidIdentifier)
            }
        }
    }
}

/// Decoding reads back exactly what encoding wrote, whatever follows it:
/// the round trip over the wire is the identity on canonical identifiers.
pub proof fn lemma_identifier_round_trip(id: IdentifierView, rest: Seq<u8>)
    requires
        id.valid(),
    ensures
        IdentifierView::decode(id.encoded() + rest)
            == Ok::<(IdentifierView, int), IggyError>((id, id.encoded().len() as int)),
{
    let s = id.encoded() + rest;
    match id {
        IdentifierView::Numeric(v) => {
            lemma_auto_spec_u32_to_from_le_bytes();
            assert(s.subrange(2, 6) =~= spec_u32_to_le_bytes(v));
            assert(id.encoded().len() == 6);
        },
        IdentifierView::Named(name) => {
            assert(s[1] == name.len() as u8);
            assert((name.len() as u8) as int == name.len() as int);
            assert(s.subrange(2, 2 + (name.len() as u8) as int) =~= name);
        },
    }
}

/// Byte-vector equality, elementwise.
pub fn bytes_eq(a: &Vec<u8>, b: &Vec<u8>) -> (r: bool)
    ensures
        r == (a@ == b@),
{
    if a.len() != b.len() {
        return false;
    }
    let mut i: usize = 0;
    while i < a.len()
        invariant
            i <= a@.len(),
            a@.len() == b@.len(),
            forall|k: int| 0 <= k < i ==> a@[k] == b@[k],
        decreases a@.len() - i,
    {
        if a[i] != b[i] {
            return false;
        }
        i += 1;
    }
    proof {
        assert(a@ =~= b@);
    }
    true
}

impl Identifier {
    /// Canonical numeric identifier; zero is rejected.
    pub fn numeric(value: u32) -> (r: Result<Identifier, IggyError>)
        ensures
            value != 0 ==> (r matches Ok(id) && id@ == IdentifierView::Numeric(value)
                && id@.valid()),
            value == 0 ==> r == Err::<Identifier, IggyError>(IggyError::InvalidIdentifier),
    {
        if value == 0 {
            Err(IggyError::InvalidIdentifier)
        } else {
            Ok(Identifier::Numeric(value))
        }
    }

    /// Canonical named identifier; the name must hold 1 to 255 bytes.
    pub fn named(name: Vec<u8>) -> (r: Result<Identifier, IggyError>)
        ensures
            1 <= name@.len() <= MAX_NAME_LENGTH ==> (r matches Ok(id)
                && id@ == IdentifierView::Named(name@) && id@.valid()),
            !(1 <= name@.len() <= MAX_NAME_LENGTH)
                ==> r == Err::<Identifier, IggyError>(IggyError::InvalidIdentifier),
    {
        if name.len() == 0 || name.len() > MAX_NAME_LENGTH {
            Err(IggyError::InvalidIdentifier)
        } else {
            Ok(Identifier::Named(name))
        }
    }

    /// Number of bytes this identifier occupies on the wire.
    pub fn get_size_bytes(&self) -> (n: usize)
        requires
            self@.valid(),
        ensures
            n == self@.encoded().len(),
    {
        proof {
            lemma_auto_spec_u32_to_from_le_bytes();
        }
        match self {
            Identifier::Numeric(_) => 6,
            Identifier::Named(name) => 2 + name.len(),
        }
    }

    /// Encode onto the wire.
    pub fn to_bytes(&self) -> (r: Vec<u8>)
        requires
            self@.valid(),
        ensures
            r@ == self@.encoded(),
    {
        let mut out: Vec<u8> = Vec::new();
        match self {
            Identifier::Numeric(v) => {
                out.push(NUMERIC_KIND);
                out.push(4);
                let mut le = u32_to_le_bytes(*v);
                out.append(&mut le);
                proof {
                    assert(out@ =~= self@.encoded());
                }
            },
            Identifier::Named(name) => {
                out.push(NAME_KIND);
                out.push(name.len() as u8);
                let mut i: usize = 0;
                while i < name.len()
                    invariant
                        i <= name@.len(),
                        out@ == seq![NAME_KIND, name@.len() as u8] + name@.subrange(0, i as int),
                    decreases name@.len() - i,
                {
                    out.push(name[i]);
                    proof {
                        assert(seq![NAME_KIND, name@.len() as u8] + name@.subrange(0, i as int)
                            + seq![name@[i as int]]
                            =~= seq![NAME_KIND, name@.len() as u8]
                                + name@.subrange(0, i + 1 as int));
                    }
                    i += 1;
                }
                proof {
                    assert(name@.subrange(0, name@.len() as int) =~= name@);
                }
            },
        }
        out
    }

    /// Decode one identifier starting at `pos`; on success also return the
    /// number of bytes it occupied, so the caller can continue after it.
    pub fn from_bytes_at(bytes: &Vec<u8>, pos: usize) -> (r: Result<(Identifier, usize), IggyError>)
        requires
            pos <= bytes@.len(),
        ensures
            ({
                let s = bytes@.skip(pos as int);
                match IdentifierView::decode(s) {
                    Ok(p) => r matches Ok(q) && q.0@ == p.0 && q.1 == p.1 && q.0@.valid()
                        && pos + q.1 <= bytes@.len(),
                    Err(e) => r == Err::<(Identifier, usize), IggyError>(e),
                }
            }),
    {
        let ghost s = bytes@.skip(pos as int);
        let len = bytes.len();
        if len - pos < 2 {
            return Err(IggyError::InvalidCommand);
        }
        let kind = bytes[pos];
        let length = bytes[pos + 1];
        if kind == NUMERIC_KIND {
            if length != 4 {
                return Err(IggyError::InvalidIdentifier);
            }
            if len - pos < 6 {
                return Err(IggyError::InvalidCommand);
            }
            let mut le: Vec<u8> = Vec::new();
            le.push(bytes[pos + 2]);
            le.push(bytes[pos + 3]);
            le.push(bytes[pos + 4]);
            le.push(bytes[pos + 5]);
            proof {
                assert(le@ =~= s.subrange(2, 6));
            }
            let value = u32_from_le_bytes(le.as_slice());
            if value == 0 {
                return Err(IggyError::InvalidIdentifier);
            }
            Ok((Identifier::Numeric(value), 6))
        } else if kind == NAME_KIND {
            if length == 0 {
                return Err(IggyError::InvalidIdentifier);
            }
            let length_us = length as usize;
            if len - pos < 2 + length_us {
                return Err(IggyError::InvalidCommand);
            }
            let mut name: Vec<u8> = Vec::new();
            let mut i: usize = 0;
            let base = pos + 2;
            while i < length_us
                invariant
                    i <= length_us,
                    base == pos + 2,
                    base + length_us <= len,
                    len == bytes@.len(),
                    name@ == bytes@.skip(pos as int).subrange(2, 2 + i as int),
                decreases length_us - i,
            {
                name.push(bytes[base + i]);
                proof {
                    assert(bytes@.skip(pos as int).subrange(2, 2 + i as int)
                        + seq![bytes@[pos + 2 + i]]
                        =~= bytes@.skip(pos as int).subrange(2, 2 + (i + 1) as int));
                }
                i += 1;
            }
            Ok((Identifier::Named(name), 2 + length_us))
        } else {
            Err(IggyError::InvalidIdentifier)
        }
    }

    /// Decode one identifier from the front of the buffer.
    pub fn from_bytes(bytes: &Vec<u8>) -> (r: Result<(Identifier, usize), IggyError>)
        ensures
            ({
                let s = bytes@;
                match IdentifierView::decode(s) {
                    Ok(p) => r matches Ok(q) && q.0@ == p.0 && q.1 == p.1 && q.0@.valid()
                        && q.1 <= bytes@.len(),
                    Err(e) => r == Err::<(Identifier, usize), IggyError>(e),
                }
            }),
    {
        let r = Self::from_bytes_at(bytes, 0);
        proof {
            assert(bytes@.skip(0) =~= bytes@);
        }
        r
    }
}

impl PartialEq for Identifier {
    /// Equality treats the two variants consistently: numeric IDs by value,
    /// names byte for byte, and a numeric ID never equals a name.
    fn eq(&self, other: &Identifier) -> (r: bool) {
        match (self, other) {
            (Identifier::Numeric(a), Identifier::Numeric(b)) => *a == *b,
            (Identifier::Named(a), Identifier::Named(b)) => bytes_eq(a, b),
            _ => false,
        }
    }
}

impl vstd::std_specs::cmp::PartialEqSpecImpl for Identifier {
    open spec fn obeys_eq_spec() -> bool {
        true
    }

    open spec fn eq_spec(&self, other: &Identifier) -> bool {
        self@ == other@
    }
}

impl Eq for Identifier {

}

impl Default for Identifier {
    /// The default identifier is the numeric ID 1.
    fn default() -> (r: Identifier)
        ensures
            r@ == IdentifierView::Numeric(1),
            r@.valid(),
    {
        Identifier::Numeric(1)
    }
}

} // verus!
