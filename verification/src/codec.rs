//! The wire format of one trie node.
//!
//! An encoding is self-delimiting. It starts with a header byte that gives the
//! node's kind and the first bits of the partial key's length:
//!
//! | header byte   | kind                                   | length bits |
//! |---------------|----------------------------------------|-------------|
//! | `11xx xxxx`   | branch with a value                    | 6           |
//! | `10xx xxxx`   | branch without value                   | 6           |
//! | `01xx xxxx`   | leaf                                   | 6           |
//! | `001x xxxx`   | leaf whose value is given by its hash  | 5           |
//! | `0001 xxxx`   | branch whose value is given by its hash| 4           |
//! | `0000 xxxx`   | reserved                               |             |
//!
//! Where all length bits are set, the next byte is added to them. Then come the
//! partial key, two nibbles per byte and padded in front with a zero nibble
//! where its length is odd; for a branch the bitmap of its children, 16 bits in
//! little endian, and for each child its merkle value behind a length byte:
//! 32 bytes of hash, or the child's own encoding where that is shorter; last
//! the value: behind a compact length prefix, or 32 bytes of hash.

use vstd::prelude::*;
use crate::bytes::copy_range;
use crate::node::{
    count_present, slot_view, slots_view, value_view, MerkleValue, MerkleValueSpec, NodeSpec,
    StorageValue, StorageValueSpec, TrieNode,
};

verus! {

/// What is wrong with a single node encoding.
#[derive(Debug, Clone, Copy, PartialEq, Eq, Structural)]
pub enum CodecError {
    /// A declared length reaches beyond the end of the bytes.
    Truncated,
    /// The header holds a reserved bit pattern, declares a partial key of more
    /// than 64 nibbles, pads the partial key with a nibble other than zero,
    /// declares a branch without any child, or declares the node that should
    /// have been merged with its only child.
    InvalidHeader,
    /// The length of a child's merkle value is neither 32 nor that of the node
    /// encoding that the slot holds: it is 0 or more than 32, or the bytes of
    /// an inline child are not one well-formed node encoding.
    BadChildLength,
    /// The length prefix of the value is in the big-integer form.
    BadValueLength,
}

/// How a node's value is given.
#[derive(Debug, Clone, Copy, PartialEq, Eq, Structural)]
pub enum ValueKind {
    /// The node has no value.
    Absent,
    /// The value follows behind a length prefix.
    Plain,
    /// The 32-byte hash of the value follows.
    Hashed,
}

/// What the header byte says.
#[derive(Debug, Clone, Copy, PartialEq, Eq, Structural)]
pub struct Header {
    /// Whether the node is a branch.
    pub has_children: bool,
    /// How the value is given.
    pub value: ValueKind,
    /// The length bits of the header byte.
    pub low: u8,
    /// The length bits when all are set.
    pub max: u8,
}

/// The model of [`parse_header`]: `None` for a reserved bit pattern.
pub open spec fn spec_header(b: u8) -> Option<Header> {
    if b >= 192 {
        Some(Header { has_children: true, value: ValueKind::Plain, low: (b - 192) as u8, max: 63 })
    } else if b >= 128 {
        Some(
            Header { has_children: true, value: ValueKind::Absent, low: (b - 128) as u8, max: 63 },
        )
    } else if b >= 64 {
        Some(Header { has_children: false, value: ValueKind::Plain, low: (b - 64) as u8, max: 63 })
    } else if b >= 32 {
        Some(
            Header { has_children: false, value: ValueKind::Hashed, low: (b - 32) as u8, max: 31 },
        )
    } else if b >= 16 {
        Some(Header { has_children: true, value: ValueKind::Hashed, low: (b - 16) as u8, max: 15 })
    } else {
        None
    }
}

/// Reads the header byte of an encoding.
pub fn parse_header(b: u8) -> (h: Option<Header>)
    ensures
        h == spec_header(b),
{
    if b >= 192 {
        Some(Header { has_children: true, value: ValueKind::Plain, low: b - 192, max: 63 })
    } else if b >= 128 {
        Some(Header { has_children: true, value: ValueKind::Absent, low: b - 128, max: 63 })
    } else if b >= 64 {
        Some(Header { has_children: false, value: ValueKind::Plain, low: b - 64, max: 63 })
    } else if b >= 32 {
        Some(Header { has_children: false, value: ValueKind::Hashed, low: b - 32, max: 31 })
    } else if b >= 16 {
        Some(Header { has_children: true, value: ValueKind::Hashed, low: b - 16, max: 15 })
    } else {
        None
    }
}

/// Length of the partial key in nibbles, and the position behind the bytes
/// that give it.
pub open spec fn spec_key_len(bytes: Seq<u8>, h: Header) -> Result<(int, int), CodecError> {
    if h.low < h.max {
        Ok((h.low as int, 1))
    } else if bytes.len() < 2 {
        Err(CodecError::Truncated)
    } else if h.max + bytes[1] > 64 {
        Err(CodecError::InvalidHeader)
    } else {
        Ok((h.max + bytes[1], 2))
    }
}

/// Nibble `i` of a partial key of `len` nibbles packed from `start` on.
pub open spec fn nibble_at(bytes: Seq<u8>, start: int, len: int, i: int) -> u8 {
    let j = i + len % 2;
    let b = bytes[start + j / 2];
    if j % 2 == 0 {
        b / 16
    } else {
        b % 16
    }
}

/// The partial key of `len` nibbles packed from `start` on.
pub open spec fn spec_key(bytes: Seq<u8>, start: int, len: int) -> Seq<u8> {
    Seq::new(len as nat, |i: int| nibble_at(bytes, start, len, i))
}

/// The merkle value of a child at `pos`, and the position behind it.
pub open spec fn spec_child(bytes: Seq<u8>, pos: int) -> Result<(MerkleValueSpec, int), CodecError> {
    if pos >= bytes.len() {
        Err(CodecError::Truncated)
    } else {
        let b = bytes[pos];
        let n = (b / 4) as int;
        if b % 4 != 0 || n == 0 || n > 32 {
            Err(CodecError::BadChildLength)
        } else if pos + 1 + n > bytes.len() {
            Err(CodecError::Truncated)
        } else {
            let data = bytes.subrange(pos + 1, pos + 1 + n);
            if n == 32 {
                Ok((MerkleValueSpec::Hashed(data), pos + 1 + n))
            } else {
                Ok((MerkleValueSpec::Inline(data), pos + 1 + n))
            }
        }
    }
}

/// Where the decoder stands after some of the 16 child slots.
pub struct ChildrenState {
    /// The slots read so far.
    pub children: Seq<Option<MerkleValueSpec>>,
    /// The position of the next merkle value.
    pub pos: int,
    /// The bitmap, shifted right by the number of slots read.
    pub rest: int,
}

/// The decoder's state after the first `k` child slots of a branch whose
/// merkle values start at `start`.
pub open spec fn spec_children(bytes: Seq<u8>, start: int, bitmap: int, k: nat) -> Result<
    ChildrenState,
    CodecError,
>
    decreases k,
{
    if k == 0 {
        Ok(ChildrenState { children: Seq::empty(), pos: start, rest: bitmap })
    } else {
        match spec_children(bytes, start, bitmap, (k - 1) as nat) {
            Err(e) => Err(e),
            Ok(st) => if st.rest % 2 == 0 {
                Ok(
                    ChildrenState {
                        children: st.children.push(None),
                        pos: st.pos,
                        rest: st.rest / 2,
                    },
                )
            } else {
                match spec_child(bytes, st.pos) {
                    Err(e) => Err(e),
                    Ok((c, next)) => Ok(
                        ChildrenState {
                            children: st.children.push(Some(c)),
                            pos: next,
                            rest: st.rest / 2,
                        },
                    ),
                }
            },
        }
    }
}

/// The 16 child slots of a node whose partial key ends at `pos`, and the
/// position behind them.
pub open spec fn spec_slots(bytes: Seq<u8>, pos: int, has_children: bool) -> Result<
    (Seq<Option<MerkleValueSpec>>, int),
    CodecError,
> {
    if !has_children {
        Ok((Seq::new(16, |i: int| None), pos))
    } else if pos + 2 > bytes.len() {
        Err(CodecError::Truncated)
    } else {
        let bitmap = bytes[pos] + 256 * bytes[pos + 1];
        if bitmap == 0 {
            Err(CodecError::InvalidHeader)
        } else {
            match spec_children(bytes, pos + 2, bitmap, 16) {
                Err(e) => Err(e),
                Ok(st) => Ok((st.children, st.pos)),
            }
        }
    }
}

/// The compact length prefix at `pos`, and the position behind it.
pub open spec fn spec_len_prefix(bytes: Seq<u8>, pos: int) -> Result<(int, int), CodecError> {
    if pos >= bytes.len() {
        Err(CodecError::Truncated)
    } else {
        let b0 = bytes[pos];
        if b0 % 4 == 0 {
            Ok(((b0 / 4) as int, pos + 1))
        } else if b0 % 4 == 1 {
            if pos + 2 > bytes.len() {
                Err(CodecError::Truncated)
            } else {
                Ok(((b0 + 256 * bytes[pos + 1]) / 4, pos + 2))
            }
        } else if b0 % 4 == 2 {
            if pos + 4 > bytes.len() {
                Err(CodecError::Truncated)
            } else {
                Ok(
                    (
                        (b0 + 256 * bytes[pos + 1] + 65536 * bytes[pos + 2] + 16777216 * bytes[pos
                            + 3]) / 4,
                        pos + 4,
                    ),
                )
            }
        } else {
            Err(CodecError::BadValueLength)
        }
    }
}

/// The value at `pos`, and the position behind it.
pub open spec fn spec_value(bytes: Seq<u8>, pos: int, kind: ValueKind) -> Result<
    (Option<StorageValueSpec>, int),
    CodecError,
> {
    match kind {
        ValueKind::Absent => Ok((None, pos)),
        ValueKind::Hashed => if pos + 32 > bytes.len() {
            Err(CodecError::Truncated)
        } else {
            Ok((Some(StorageValueSpec::HashOnly(bytes.subrange(pos, pos + 32))), pos + 32))
        },
        ValueKind::Plain => match spec_len_prefix(bytes, pos) {
            Err(e) => Err(e),
            Ok((n, p)) => if p + n > bytes.len() {
                Err(CodecError::Truncated)
            } else {
                Ok((Some(StorageValueSpec::Plain(bytes.subrange(p, p + n))), p + n))
            },
        },
    }
}

/// The node that `bytes` starts with and the number of bytes of its encoding,
/// or what is wrong with it; the inline children of the node are taken as
/// they are.
pub open spec fn spec_decode(bytes: Seq<u8>) -> Result<(NodeSpec, int), CodecError> {
    if bytes.len() == 0 {
        Err(CodecError::Truncated)
    } else {
        match spec_header(bytes[0]) {
            None => Err(CodecError::InvalidHeader),
            Some(h) => match spec_key_len(bytes, h) {
                Err(e) => Err(e),
                Ok((key_len, p1)) => {
                    let p2 = p1 + (key_len + 1) / 2;
                    if p2 > bytes.len() {
                        Err(CodecError::Truncated)
                    } else if key_len % 2 == 1 && bytes[p1] / 16 != 0 {
                        Err(CodecError::InvalidHeader)
                    } else {
                        match spec_slots(bytes, p2, h.has_children) {
                            Err(e) => Err(e),
                            Ok((children, p3)) => if key_len == 0 && h.value == ValueKind::Absent
                                && count_present(children) == 1 {
                                Err(CodecError::InvalidHeader)
                            } else {
                                match spec_value(bytes, p3, h.value) {
                                    Err(e) => Err(e),
                                    Ok((value, p4)) => Ok(
                                        (
                                            NodeSpec {
                                                partial_key: spec_key(bytes, p1, key_len),
                                                children,
                                                storage_value: value,
                                            },
                                            p4,
                                        ),
                                    ),
                                }
                            },
                        }
                    }
                },
            },
        }
    }
}


/// Reads the length of the partial key.
fn read_key_len(bytes: &[u8], h: Header) -> (r: Result<(usize, usize), CodecError>)
    requires
        bytes@.len() > 0,
        spec_header(bytes@[0]) == Some(h),
    ensures
        match r {
            Ok((key_len, p1)) => spec_key_len(bytes@, h) == Ok::<(int, int), CodecError>(
                (key_len as int, p1 as int),
            ) && key_len <= 64 && 1 <= p1 <= 2 && p1 <= bytes@.len(),
            Err(e) => spec_key_len(bytes@, h) == Err::<(int, int), CodecError>(e),
        },
{
    if h.low < h.max {
        Ok((h.low as usize, 1))
    } else if bytes.len() < 2 {
        Err(CodecError::Truncated)
    } else {
        let more: u8 = bytes[1];
        if more > 64 - h.max {
            Err(CodecError::InvalidHeader)
        } else {
            Ok(((h.max + more) as usize, 2))
        }
    }
}

/// Unpacks the partial key.
fn read_key(bytes: &[u8], start: usize, key_len: usize) -> (key: Vec<u8>)
    requires
        key_len <= 64,
        start + (key_len + 1) / 2 <= bytes@.len(),
    ensures
        key@ == spec_key(bytes@, start as int, key_len as int),
        forall|i: int| 0 <= i < key@.len() ==> #[trigger] key@[i] < 16,
{
    let odd: usize = key_len % 2;
    let total: usize = bytes.len();
    let mut key: Vec<u8> = Vec::new();
    let mut i: usize = 0;
    while i < key_len
        invariant
            key_len <= 64,
            odd == key_len % 2,
            total == bytes@.len(),
            start + (key_len + 1) / 2 <= bytes@.len(),
            i <= key_len,
            key@.len() == i,
            forall|j: int|
                0 <= j < i ==> #[trigger] key@[j] == nibble_at(
                    bytes@,
                    start as int,
                    key_len as int,
                    j,
                ),
            forall|j: int| 0 <= j < i ==> #[trigger] key@[j] < 16,
        decreases key_len - i,
    {
        let j: usize = i + odd;
        assert(j / 2 < (key_len + 1) / 2);
        let b: u8 = bytes[start + j / 2];
        let nibble: u8 = if j % 2 == 0 {
            b / 16
        } else {
            b % 16
        };
        key.push(nibble);
        i = i + 1;
    }
    assert(key@ =~= spec_key(bytes@, start as int, key_len as int));
    key
}

/// Reads the merkle value of one child.
fn read_child(bytes: &[u8], pos: usize) -> (r: Result<(MerkleValue, usize), CodecError>)
    requires
        pos <= bytes@.len(),
    ensures
        match r {
            Ok((c, next)) => spec_child(bytes@, pos as int) == Ok::<
                (MerkleValueSpec, int),
                CodecError,
            >((c@, next as int)) && c@.well_formed() && pos < next <= bytes@.len(),
            Err(e) => spec_child(bytes@, pos as int) == Err::<(MerkleValueSpec, int), CodecError>(
                e,
            ),
        },
{
    if pos >= bytes.len() {
        return Err(CodecError::Truncated);
    }
    let b: u8 = bytes[pos];
    let n: usize = (b / 4) as usize;
    if b % 4 != 0 || n == 0 || n > 32 {
        return Err(CodecError::BadChildLength);
    }
    if n > bytes.len() - pos - 1 {
        return Err(CodecError::Truncated);
    }
    let data = copy_range(bytes, pos + 1, pos + 1 + n);
    if n == 32 {
        Ok((MerkleValue::Hashed(data), pos + 1 + n))
    } else {
        Ok((MerkleValue::Inline(data), pos + 1 + n))
    }
}

/// Once a child slot fails to decode, so do all the slots behind it.
pub proof fn lemma_children_error_stays(
    bytes: Seq<u8>,
    start: int,
    bitmap: int,
    k: nat,
    later: nat,
)
    requires
        k <= later,
        spec_children(bytes, start, bitmap, k) is Err,
    ensures
        spec_children(bytes, start, bitmap, later) == spec_children(bytes, start, bitmap, k),
    decreases later,
{
    if later > k {
        lemma_children_error_stays(bytes, start, bitmap, k, (later - 1) as nat);
    }
}

/// Reads the 16 child slots of a node.
fn read_slots(bytes: &[u8], pos: usize, has_children: bool) -> (r: Result<
    (Vec<Option<MerkleValue>>, usize),
    CodecError,
>)
    requires
        pos <= bytes@.len(),
    ensures
        match r {
            Ok((slots, next)) => spec_slots(bytes@, pos as int, has_children) == Ok::<
                (Seq<Option<MerkleValueSpec>>, int),
                CodecError,
            >((slots_view(slots@), next as int)) && slots@.len() == 16 && pos <= next
                <= bytes@.len() && forall|i: int|
                0 <= i < 16 ==> (#[trigger] slots_view(slots@)[i] matches Some(c)
                    ==> c.well_formed()),
            Err(e) => spec_slots(bytes@, pos as int, has_children) == Err::<
                (Seq<Option<MerkleValueSpec>>, int),
                CodecError,
            >(e),
        },
{
    let mut slots: Vec<Option<MerkleValue>> = Vec::new();
    if !has_children {
        let mut k: usize = 0;
        while k < 16
            invariant
                k <= 16,
                slots@.len() == k,
                forall|i: int| 0 <= i < k ==> #[trigger] slots@[i] is None,
            decreases 16 - k,
        {
            slots.push(None);
            k = k + 1;
        }
        assert(slots_view(slots@) =~= Seq::new(16, |i: int| None::<MerkleValueSpec>));
        return Ok((slots, pos));
    }
    if bytes.len() - pos < 2 {
        return Err(CodecError::Truncated);
    }
    let bitmap: u16 = bytes[pos] as u16 + 256 * (bytes[pos + 1] as u16);
    if bitmap == 0 {
        return Err(CodecError::InvalidHeader);
    }
    let start: usize = pos + 2;
    let mut at: usize = start;
    let mut rest: u16 = bitmap;
    let mut k: usize = 0;
    proof {
        assert(bitmap as int == bytes@[pos as int] + 256 * bytes@[pos + 1]);
        assert(slots_view(slots@) =~= Seq::<Option<MerkleValueSpec>>::empty());
    }
    while k < 16
        invariant
            k <= 16,
            has_children,
            start == pos + 2,
            bitmap != 0,
            bitmap as int == bytes@[pos as int] + 256 * bytes@[pos + 1],
            start <= at <= bytes@.len(),
            slots@.len() == k,
            spec_children(bytes@, start as int, bitmap as int, k as nat) == Ok::<
                ChildrenState,
                CodecError,
            >(ChildrenState { children: slots_view(slots@), pos: at as int, rest: rest as int }),
            forall|i: int|
                0 <= i < k ==> (#[trigger] slots_view(slots@)[i] matches Some(c)
                    ==> c.well_formed()),
        decreases 16 - k,
    {
        let ghost before = slots@;
        if rest % 2 == 0 {
            slots.push(None);
        } else {
            match read_child(bytes, at) {
                Err(e) => {
                    proof {
                        assert(spec_children(bytes@, start as int, bitmap as int, (k + 1) as nat)
                            == Err::<ChildrenState, CodecError>(e));
                        lemma_children_error_stays(
                            bytes@,
                            start as int,
                            bitmap as int,
                            (k + 1) as nat,
                            16,
                        );
                    }
                    return Err(e);
                },
                Ok((c, next)) => {
                    slots.push(Some(c));
                    at = next;
                },
            }
        }
        rest = rest / 2;
        k = k + 1;
        proof {
            assert(slots_view(slots@) =~= slots_view(before).push(slot_view(slots@[k - 1])));
        }
    }
    Ok((slots, at))
}

/// Reads a compact length prefix.
fn read_len_prefix(bytes: &[u8], pos: usize) -> (r: Result<(usize, usize), CodecError>)
    requires
        pos <= bytes@.len(),
    ensures
        match r {
            Ok((n, next)) => spec_len_prefix(bytes@, pos as int) == Ok::<(int, int), CodecError>(
                (n as int, next as int),
            ) && pos < next <= bytes@.len(),
            Err(e) => spec_len_prefix(bytes@, pos as int) == Err::<(int, int), CodecError>(e),
        },
{
    if pos >= bytes.len() {
        return Err(CodecError::Truncated);
    }
    let b0: u8 = bytes[pos];
    let mode: u8 = b0 % 4;
    if mode == 0 {
        Ok(((b0 / 4) as usize, pos + 1))
    } else if mode == 1 {
        if bytes.len() - pos < 2 {
            return Err(CodecError::Truncated);
        }
        let raw: u32 = b0 as u32 + 256 * (bytes[pos + 1] as u32);
        Ok(((raw / 4) as usize, pos + 2))
    } else if mode == 2 {
        if bytes.len() - pos < 4 {
            return Err(CodecError::Truncated);
        }
        let raw: u32 = b0 as u32 + 256 * (bytes[pos + 1] as u32) + 65536 * (bytes[pos + 2] as u32)
            + 16777216 * (bytes[pos + 3] as u32);
        Ok(((raw / 4) as usize, pos + 4))
    } else {
        Err(CodecError::BadValueLength)
    }
}

/// Reads the value of a node.
fn read_value(bytes: &[u8], pos: usize, kind: ValueKind) -> (r: Result<
    (Option<StorageValue>, usize),
    CodecError,
>)
    requires
        pos <= bytes@.len(),
    ensures
        match r {
            Ok((value, next)) => spec_value(bytes@, pos as int, kind) == Ok::<
                (Option<StorageValueSpec>, int),
                CodecError,
            >((value_view(value), next as int)) && pos <= next <= bytes@.len() && (value_view(
                value,
            ) matches Some(StorageValueSpec::HashOnly(h)) ==> h.len() == 32) && (value_view(
                value,
            ) matches Some(StorageValueSpec::Plain(v)) ==> v.len() < next - pos),
            Err(e) => spec_value(bytes@, pos as int, kind) == Err::<
                (Option<StorageValueSpec>, int),
                CodecError,
            >(e),
        },
{
    match kind {
        ValueKind::Absent => Ok((None, pos)),
        ValueKind::Hashed => {
            if bytes.len() - pos < 32 {
                return Err(CodecError::Truncated);
            }
            let hash = copy_range(bytes, pos, pos + 32);
            Ok((Some(StorageValue::HashOnly(hash)), pos + 32))
        },
        ValueKind::Plain => match read_len_prefix(bytes, pos) {
            Err(e) => Err(e),
            Ok((n, p)) => {
                if n > bytes.len() - p {
                    return Err(CodecError::Truncated);
                }
                let value = copy_range(bytes, p, p + n);
                Ok((Some(StorageValue::Plain(value)), p + n))
            },
        },
    }
}

/// Counts the occupied child slots.
fn count_children(slots: &Vec<Option<MerkleValue>>) -> (n: usize)
    ensures
        n == count_present(slots_view(slots@)),
        n <= slots@.len(),
{
    let mut n: usize = 0;
    let mut i: usize = 0;
    while i < slots.len()
        invariant
            i <= slots@.len(),
            n <= i,
            n == count_present(slots_view(slots@).take(i as int)),
        decreases slots@.len() - i,
    {
        proof {
            let all = slots_view(slots@);
            assert(all.take(i + 1).drop_last() =~= all.take(i as int));
            assert(all.take(i + 1).last() == all[i as int]);
        }
        if slots[i].is_some() {
            n = n + 1;
        }
        i = i + 1;
    }
    assert(slots_view(slots@).take(i as int) =~= slots_view(slots@));
    n
}

/// The model of what [`decode_flat`] and [`decode_node`] return.
pub open spec fn decoded_view(r: Result<(TrieNode, usize), CodecError>) -> Result<
    (NodeSpec, int),
    CodecError,
> {
    match r {
        Ok((node, n)) => Ok((node@, n as int)),
        Err(e) => Err(e),
    }
}

/// Decodes the node encoding that `bytes` starts with, and leaves the inline
/// children of the node as they are.
///
/// Returns the node and the number of bytes of its encoding, so that the next
/// encoding starts right behind. Every length in the encoding is held against
/// the bytes that are left before anything is copied.
pub fn decode_flat(bytes: &[u8]) -> (r: Result<(TrieNode, usize), CodecError>)
    ensures
        decoded_view(r) == spec_decode(bytes@),
        r matches Ok((node, n)) ==> node@.well_formed() && 0 < n <= bytes@.len(),
        r matches Ok((node, n)) ==> (node@.storage_value matches Some(StorageValueSpec::Plain(v))
            ==> v.len() < n),
{
    if bytes.len() == 0 {
        return Err(CodecError::Truncated);
    }
    let h = match parse_header(bytes[0]) {
        None => {
            return Err(CodecError::InvalidHeader);
        },
        Some(h) => h,
    };
    let (key_len, p1) = match read_key_len(bytes, h) {
        Err(e) => {
            return Err(e);
        },
        Ok(found) => found,
    };
    let key_bytes: usize = (key_len + 1) / 2;
    if key_bytes > bytes.len() - p1 {
        return Err(CodecError::Truncated);
    }
    if key_len % 2 == 1 && bytes[p1] / 16 != 0 {
        return Err(CodecError::InvalidHeader);
    }
    let partial_key = read_key(bytes, p1, key_len);
    let p2: usize = p1 + key_bytes;
    let (children, p3) = match read_slots(bytes, p2, h.has_children) {
        Err(e) => {
            return Err(e);
        },
        Ok(found) => found,
    };
    let no_value: bool = match h.value {
        ValueKind::Absent => true,
        _ => false,
    };
    if key_len == 0 && no_value && count_children(&children) == 1 {
        return Err(CodecError::InvalidHeader);
    }
    let (storage_value, p4) = match read_value(bytes, p3, h.value) {
        Err(e) => {
            return Err(e);
        },
        Ok(found) => found,
    };
    let node = TrieNode { partial_key, children, storage_value };
    proof {
        assert(h.value == ValueKind::Absent ==> node@.storage_value is None);
        assert(h.value != ValueKind::Absent ==> node@.storage_value is Some);
    }
    Ok((node, p4))
}


/// `bytes` is one node encoding, and so are the inline children of its
/// node, theirs, and so on.
pub open spec fn inline_ok(bytes: Seq<u8>) -> bool
    decreases bytes.len(),
{
    match spec_decode(bytes) {
        Ok((node, n)) => n == bytes.len() && forall|s: int|
            0 <= s < node.children.len() ==> (#[trigger] node.children[s] matches Some(
                MerkleValueSpec::Inline(c),
            ) ==> c.len() < bytes.len() && inline_ok(c)),
        Err(_) => false,
    }
}

/// Every inline child among `children` is shorter than `limit` and one
/// node encoding, inline children included.
pub open spec fn children_ok(children: Seq<Option<MerkleValueSpec>>, limit: int) -> bool {
    forall|s: int|
        0 <= s < children.len() ==> (#[trigger] children[s] matches Some(
            MerkleValueSpec::Inline(c),
        ) ==> c.len() < limit && inline_ok(c))
}

/// The node that `bytes` starts with and the number of bytes of its encoding,
/// or what is wrong with it. An inline child that is not itself a node
/// encoding has a bad length.
pub open spec fn spec_node(bytes: Seq<u8>) -> Result<(NodeSpec, int), CodecError> {
    match spec_decode(bytes) {
        Err(e) => Err(e),
        Ok((node, n)) => if children_ok(node.children, 32) {
            Ok((node, n))
        } else {
            Err(CodecError::BadChildLength)
        },
    }
}

/// Tells whether the inline children of a node are node encodings shorter
/// than `limit`.
fn inline_children_decode(node: &TrieNode, limit: usize) -> (ok: bool)
    requires
        node@.well_formed(),
    ensures
        ok == children_ok(node@.children, limit as int),
    decreases limit,
{
    let mut s: usize = 0;
    while s < 16
        invariant
            s <= 16,
            node@.well_formed(),
            node.children@.len() == 16,
            forall|t: int|
                0 <= t < s ==> (#[trigger] node@.children[t] matches Some(
                    MerkleValueSpec::Inline(c),
                ) ==> c.len() < limit && inline_ok(c)),
        decreases 16 - s,
    {
        assert(node@.children[s as int] == slot_view(node.children@[s as int]));
        match &node.children[s] {
            Some(MerkleValue::Inline(c)) => {
                if c.len() >= limit {
                    return false;
                }
                match decode_flat(c.as_slice()) {
                    Err(_) => {
                        return false;
                    },
                    Ok((child, n)) => {
                        if n != c.len() {
                            return false;
                        }
                        let inner = inline_children_decode(&child, c.len());
                        assert(inner == inline_ok(c@));
                        if !inner {
                            return false;
                        }
                    },
                }
            },
            _ => {},
        }
        s = s + 1;
    }
    true
}

/// Decodes the node encoding that `bytes` starts with.
///
/// Returns the node and the number of bytes of its encoding, so that the next
/// encoding starts right behind. Every length in the encoding is held against
/// the bytes that are left before anything is copied, and every inline child
/// is decoded in its turn.
pub fn decode_node(bytes: &[u8]) -> (r: Result<(TrieNode, usize), CodecError>)
    ensures
        decoded_view(r) == spec_node(bytes@),
        r matches Ok((node, n)) ==> node@.well_formed() && 0 < n <= bytes@.len(),
        r matches Ok((node, n)) ==> (node@.storage_value matches Some(StorageValueSpec::Plain(v))
            ==> v.len() < n),
{
    match decode_flat(bytes) {
        Err(e) => Err(e),
        Ok((node, n)) => {
            if inline_children_decode(&node, 32) {
                Ok((node, n))
            } else {
                Err(CodecError::BadChildLength)
            }
        },
    }
}

/// `a` and `b` hold the same first `n` bytes.
pub open spec fn agree(a: Seq<u8>, b: Seq<u8>, n: int) -> bool {
    &&& n <= a.len()
    &&& n <= b.len()
    &&& forall|i: int| 0 <= i < n ==> a[i] == b[i]
}

/// The child slots read so far hold well-formed merkle values, and a hash
/// among them takes its 33 bytes of the encoding.
pub proof fn lemma_children_shape(bytes: Seq<u8>, start: int, bitmap: int, k: nat)
    requires
        spec_children(bytes, start, bitmap, k) is Ok,
        0 <= start <= bytes.len(),
    ensures
        ({
            let st = spec_children(bytes, start, bitmap, k)->Ok_0;
            &&& st.children.len() == k
            &&& start <= st.pos <= bytes.len()
            &&& forall|i: int|
                0 <= i < k ==> (#[trigger] st.children[i] matches Some(c) ==> c.well_formed())
            &&& forall|i: int|
                0 <= i < k ==> (#[trigger] st.children[i] matches Some(
                    MerkleValueSpec::Hashed(_),
                ) ==> st.pos >= start + 33)
        }),
    decreases k,
{
    if k > 0 {
        lemma_children_shape(bytes, start, bitmap, (k - 1) as nat);
    }
}

/// The child slots depend only on the bytes up to the end of the last child.
pub proof fn lemma_children_agree(a: Seq<u8>, b: Seq<u8>, start: int, bitmap: int, k: nat)
    requires
        spec_children(a, start, bitmap, k) is Ok,
        0 <= start <= a.len(),
        agree(a, b, spec_children(a, start, bitmap, k)->Ok_0.pos),
    ensures
        spec_children(b, start, bitmap, k) == spec_children(a, start, bitmap, k),
    decreases k,
{
    if k > 0 {
        let before = spec_children(a, start, bitmap, (k - 1) as nat);
        lemma_children_shape(a, start, bitmap, (k - 1) as nat);
        lemma_children_shape(a, start, bitmap, k);
        let st = before->Ok_0;
        if st.rest % 2 != 0 {
            let next = spec_child(a, st.pos)->Ok_0.1;
            assert(agree(a, b, st.pos));
            lemma_children_agree(a, b, start, bitmap, (k - 1) as nat);
            assert(a.subrange(st.pos + 1, next) =~= b.subrange(st.pos + 1, next));
        } else {
            lemma_children_agree(a, b, start, bitmap, (k - 1) as nat);
        }
    }
}

/// An encoding is self-delimiting: the bytes behind it have no part in what
/// it decodes to. Two byte strings that start with the same encoding decode to
/// the same node and the same length.
pub proof fn lemma_decode_agrees(a: Seq<u8>, b: Seq<u8>)
    requires
        spec_decode(a) is Ok,
        agree(a, b, spec_decode(a)->Ok_0.1),
    ensures
        spec_decode(b) == spec_decode(a),
{
    let n = spec_decode(a)->Ok_0.1;
    let h = spec_header(a[0])->Some_0;
    let (key_len, p1) = spec_key_len(a, h)->Ok_0;
    let p2 = p1 + (key_len + 1) / 2;
    let (children, p3) = spec_slots(a, p2, h.has_children)->Ok_0;
    let (value, p4) = spec_value(a, p3, h.value)->Ok_0;
    assert(p4 == n);
    if h.has_children {
        let bitmap = a[p2] + 256 * a[p2 + 1];
        lemma_children_shape(a, p2 + 2, bitmap, 16);
        assert(p2 + 2 <= p3 <= a.len());
    }
    assert(p3 <= p4);
    assert(spec_key_len(b, h) == spec_key_len(a, h));
    assert(spec_key(b, p1, key_len) =~= spec_key(a, p1, key_len)) by {
        assert forall|i: int| 0 <= i < key_len implies nibble_at(b, p1, key_len, i) == nibble_at(
            a,
            p1,
            key_len,
            i,
        ) by {
            let j = i + key_len % 2;
            assert(0 <= j / 2 < (key_len + 1) / 2);
        }
    }
    if h.has_children {
        let bitmap = a[p2] + 256 * a[p2 + 1];
        lemma_children_agree(a, b, p2 + 2, bitmap, 16);
    }
    assert(spec_slots(b, p2, h.has_children) == spec_slots(a, p2, h.has_children));
    match h.value {
        ValueKind::Absent => {},
        ValueKind::Hashed => {
            assert(b.subrange(p3, p3 + 32) =~= a.subrange(p3, p3 + 32));
        },
        ValueKind::Plain => {
            let (len, p) = spec_len_prefix(a, p3)->Ok_0;
            assert(spec_len_prefix(b, p3) == spec_len_prefix(a, p3));
            assert(b.subrange(p, p + len) =~= a.subrange(p, p + len));
        },
    }
    assert(spec_value(b, p3, h.value) == spec_value(a, p3, h.value));
}

/// A decoded encoding is not empty and lies inside the bytes.
pub proof fn lemma_decode_bounds(a: Seq<u8>)
    requires
        spec_decode(a) is Ok,
    ensures
        0 < spec_decode(a)->Ok_0.1 <= a.len(),
{
    let h = spec_header(a[0])->Some_0;
    let (key_len, p1) = spec_key_len(a, h)->Ok_0;
    let p2 = p1 + (key_len + 1) / 2;
    if h.has_children {
        let bitmap = a[p2] + 256 * a[p2 + 1];
        lemma_children_shape(a, p2 + 2, bitmap, 16);
    }
}

/// A decoded encoding is not empty and lies inside the bytes.
pub proof fn lemma_node_bounds(a: Seq<u8>)
    requires
        spec_node(a) is Ok,
    ensures
        0 < spec_node(a)->Ok_0.1 <= a.len(),
{
    lemma_decode_bounds(a);
}

/// What holds of `spec_decode` holds of `spec_node`: bytes that start with
/// the same encoding decode alike.
pub proof fn lemma_node_agrees(a: Seq<u8>, b: Seq<u8>)
    requires
        spec_node(a) is Ok,
        agree(a, b, spec_node(a)->Ok_0.1),
    ensures
        spec_node(b) == spec_node(a),
        0 < spec_node(a)->Ok_0.1 <= a.len(),
{
    lemma_decode_agrees(a, b);
    lemma_decode_bounds(a);
}

/// The encoding alone decodes to the node that the bytes start with.
pub proof fn lemma_node_prefix(a: Seq<u8>, encoding: Seq<u8>)
    requires
        spec_node(a) is Ok,
        0 <= spec_node(a)->Ok_0.1 <= a.len(),
        encoding == a.subrange(0, spec_node(a)->Ok_0.1),
    ensures
        spec_node(encoding) == spec_node(a),
        spec_node(encoding)->Ok_0.1 == encoding.len(),
{
    lemma_node_agrees(a, encoding);
}

/// A decoded node is well formed, and a node with a hash among its children
/// has an encoding of 33 bytes or more.
pub proof fn lemma_decode_shape(bytes: Seq<u8>)
    requires
        spec_decode(bytes) is Ok,
    ensures
        spec_decode(bytes)->Ok_0.0.well_formed(),
        forall|s: int|
            0 <= s < 16 ==> (#[trigger] spec_decode(bytes)->Ok_0.0.children[s] matches Some(
                MerkleValueSpec::Hashed(_),
            ) ==> bytes.len() >= 33),
{
    let node = spec_decode(bytes)->Ok_0.0;
    let h = spec_header(bytes[0])->Some_0;
    let (key_len, p1) = spec_key_len(bytes, h)->Ok_0;
    let p2 = p1 + (key_len + 1) / 2;
    if h.has_children {
        let bitmap = bytes[p2] + 256 * bytes[p2 + 1];
        lemma_children_shape(bytes, p2 + 2, bitmap, 16);
    }
    assert(h.value == ValueKind::Absent ==> node.storage_value is None);
    assert(h.value != ValueKind::Absent ==> node.storage_value is Some);
}

} // verus!
