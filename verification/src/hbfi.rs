//! The hierarchical bloom-filter index that names a datum, and its wire form.

use crate::identity::PublicIdentity;
use crate::octets::{append_bytes, lemma_concat_split, take_array};
use crate::packets::{lane, sha3_512, sha3_512_digest, Sdri, SDR_BITS};
use vstd::bytes::{spec_u64_from_le_bytes, spec_u64_to_le_bytes, u64_from_le_bytes, u64_to_le_bytes};
use vstd::prelude::*;
use vstd::slice::slice_subrange;
use vstd::string::StringSliceAdditionalSpecFns;
use vstd::utf8::encode_utf8;

verus! {

/// Lanes of one bloom-filter slot.
pub const BFI_LANES: usize = 6;

/// Bytes of one bloom-filter slot on the wire.
pub const BFI_BYTES: usize = 12;

/// Bytes of an index without a requester.
pub const CLEARTEXT_HBFI_SIZE: usize = 120;

/// Bytes of an index that names its requester.
pub const CYPHERTEXT_HBFI_SIZE: usize = 184;

/// One bloom-filter slot.
pub type BFI = [u16; 6];

/// Names a datum: who may read it, who produces it, four hashed name
/// components and the offset of a chunk in the stream.
#[derive(Clone, Copy, PartialEq, Eq, Debug)]
pub struct HBFI {
    pub request_pid: Option<PublicIdentity>,
    pub response_pid: PublicIdentity,
    pub app: BFI,
    pub m0d: BFI,
    pub fun: BFI,
    pub arg: BFI,
    pub ost: u64,
}

/// An index taken without its offset: all chunks of one stream give the same
/// key. This is what the classifier learns on.
#[derive(Clone, Copy, PartialEq, Eq, Debug)]
pub struct HBFIOnlyKeys(pub HBFI);

/// The slot of a name component: the first `BFI_LANES` lanes of its digest.
pub open spec fn bfi_of(component: Seq<char>) -> Seq<u16> {
    Seq::new(BFI_LANES as nat, |i: int| lane(sha3_512(encode_utf8(component)), i) as u16)
}

/// The wire form of a slot: each lane as two bytes, low byte first.
pub open spec fn bfi_bytes(slot: BFI) -> Seq<u8> {
    Seq::new(
        BFI_BYTES as nat,
        |i: int|
            if i % 2 == 0 {
                (slot@[i / 2] % 256) as u8
            } else {
                (slot@[i / 2] / 256) as u8
            },
    )
}

/// The wire form of an optional requester: its bytes, or nothing.
pub open spec fn request_pid_bytes(pid: Option<PublicIdentity>) -> Seq<u8> {
    match pid {
        Some(p) => p@,
        None => Seq::empty(),
    }
}

/// The wire form of an index:
/// `app ‖ m0d ‖ fun ‖ arg ‖ request_pid? ‖ response_pid ‖ ost`, the offset
/// little-endian.
pub open spec fn hbfi_bytes(h: HBFI) -> Seq<u8> {
    bfi_bytes(h.app) + bfi_bytes(h.m0d) + bfi_bytes(h.fun) + bfi_bytes(h.arg) + request_pid_bytes(
        h.request_pid,
    ) + h.response_pid@ + spec_u64_to_le_bytes(h.ost)
}

/// The length of the wire form.
pub open spec fn hbfi_size(h: HBFI) -> nat {
    if h.request_pid is Some {
        CYPHERTEXT_HBFI_SIZE as nat
    } else {
        CLEARTEXT_HBFI_SIZE as nat
    }
}

/// The wire form of an index has the length that `hbfi_size` says.
pub proof fn lemma_hbfi_bytes_len(h: HBFI)
    ensures
        hbfi_bytes(h).len() == hbfi_size(h),
{
    vstd::bytes::lemma_auto_spec_u64_to_from_le_bytes();
}

/// Two slots with the same wire form are the same slot.
pub proof fn lemma_bfi_bytes_injective(a: BFI, b: BFI)
    requires
        bfi_bytes(a) == bfi_bytes(b),
    ensures
        a == b,
{
    assert forall|i: int| 0 <= i < 6 implies a@[i] == b@[i] by {
        let x = a@[i];
        let y = b@[i];
        assert((2 * i) % 2 == 0 && (2 * i) / 2 == i);
        assert((2 * i + 1) % 2 == 1 && (2 * i + 1) / 2 == i);
        assert(bfi_bytes(a)[2 * i] == (x % 256) as u8);
        assert(bfi_bytes(b)[2 * i] == (y % 256) as u8);
        assert(bfi_bytes(a)[2 * i + 1] == (x / 256) as u8);
        assert(bfi_bytes(b)[2 * i + 1] == (y / 256) as u8);
        assert(x % 256 == y % 256);
        assert(x / 256 == y / 256);
    }
    assert(a =~= b);
}

/// Two indices with the same wire form are the same index.
pub proof fn lemma_hbfi_bytes_injective(a: HBFI, b: HBFI)
    requires
        hbfi_bytes(a) == hbfi_bytes(b),
    ensures
        a == b,
{
    vstd::bytes::lemma_auto_spec_u64_to_from_le_bytes();
    lemma_hbfi_bytes_len(a);
    lemma_hbfi_bytes_len(b);
    let head_a = bfi_bytes(a.app) + bfi_bytes(a.m0d) + bfi_bytes(a.fun) + bfi_bytes(a.arg);
    let head_b = bfi_bytes(b.app) + bfi_bytes(b.m0d) + bfi_bytes(b.fun) + bfi_bytes(b.arg);
    let ra = request_pid_bytes(a.request_pid);
    let rb = request_pid_bytes(b.request_pid);
    assert(ra.len() == rb.len());
    lemma_concat_split(
        head_a + ra + a.response_pid@,
        spec_u64_to_le_bytes(a.ost),
        head_b + rb + b.response_pid@,
        spec_u64_to_le_bytes(b.ost),
    );
    assert(spec_u64_from_le_bytes(spec_u64_to_le_bytes(a.ost)) == a.ost);
    assert(spec_u64_from_le_bytes(spec_u64_to_le_bytes(b.ost)) == b.ost);
    lemma_concat_split(head_a + ra, a.response_pid@, head_b + rb, b.response_pid@);
    lemma_concat_split(head_a, ra, head_b, rb);
    lemma_concat_split(
        bfi_bytes(a.app) + bfi_bytes(a.m0d) + bfi_bytes(a.fun),
        bfi_bytes(a.arg),
        bfi_bytes(b.app) + bfi_bytes(b.m0d) + bfi_bytes(b.fun),
        bfi_bytes(b.arg),
    );
    lemma_concat_split(
        bfi_bytes(a.app) + bfi_bytes(a.m0d),
        bfi_bytes(a.fun),
        bfi_bytes(b.app) + bfi_bytes(b.m0d),
        bfi_bytes(b.fun),
    );
    lemma_concat_split(bfi_bytes(a.app), bfi_bytes(a.m0d), bfi_bytes(b.app), bfi_bytes(b.m0d));
    lemma_bfi_bytes_injective(a.app, b.app);
    lemma_bfi_bytes_injective(a.m0d, b.m0d);
    lemma_bfi_bytes_injective(a.fun, b.fun);
    lemma_bfi_bytes_injective(a.arg, b.arg);
    assert(a.response_pid.bytes =~= b.response_pid.bytes);
    if a.request_pid is Some {
        assert(a.request_pid->0.bytes =~= b.request_pid->0.bytes);
    }
}

/// Hashes a name component into a slot.
pub fn bloom_filter_index(component: &str) -> (slot: BFI)
    ensures
        slot@ == bfi_of(component@),
{
    let digest = sha3_512_digest(component.as_bytes());
    let mut slot: BFI = [0u16; 6];
    let mut i: usize = 0;
    while i < BFI_LANES
        invariant
            i <= BFI_LANES,
            digest@ == sha3_512(encode_utf8(component@)),
            forall|j: int| 0 <= j < i ==> slot@[j] == bfi_of(component@)[j],
        decreases BFI_LANES - i,
    {
        let lo: u16 = digest[2 * i] as u16;
        let hi: u16 = digest[2 * i + 1] as u16;
        slot[i] = lo + hi * 256;
        i += 1;
    }
    assert(slot@ =~= bfi_of(component@));
    slot
}

fn same_slot(a: &BFI, b: &BFI) -> (eq: bool)
    ensures
        eq == (*a == *b),
{
    let mut i: usize = 0;
    while i < BFI_LANES
        invariant
            i <= BFI_LANES,
            forall|j: int| 0 <= j < i ==> a@[j] == b@[j],
        decreases BFI_LANES - i,
    {
        if a[i] != b[i] {
            return false;
        }
        i += 1;
    }
    assert(*a =~= *b);
    true
}

fn push_slot(out: &mut Vec<u8>, slot: &BFI)
    ensures
        final(out)@ == old(out)@ + bfi_bytes(*slot),
{
    let mut i: usize = 0;
    while i < BFI_LANES
        invariant
            i <= BFI_LANES,
            out@ == old(out)@ + bfi_bytes(*slot).take(2 * i),
        decreases BFI_LANES - i,
    {
        out.push((slot[i] % 256) as u8);
        out.push((slot[i] / 256) as u8);
        i += 1;
        assert(out@ =~= old(out)@ + bfi_bytes(*slot).take(2 * i));
    }
    assert(bfi_bytes(*slot).take(12) =~= bfi_bytes(*slot));
}

fn read_slot(bytes: &[u8], at: usize) -> (slot: BFI)
    requires
        at + BFI_BYTES <= bytes@.len(),
    ensures
        bfi_bytes(slot) == bytes@.subrange(at as int, at + BFI_BYTES),
{
    let mut slot: BFI = [0u16; 6];
    let total = bytes.len();
    let mut i: usize = 0;
    while i < BFI_LANES
        invariant
            i <= BFI_LANES,
            total == bytes@.len(),
            at + BFI_BYTES <= bytes@.len(),
            forall|j: int|
                0 <= j < i ==> slot@[j] == bytes@[at + 2 * j] as int + 256 * (bytes@[at + 2 * j
                    + 1] as int),
        decreases BFI_LANES - i,
    {
        let lo: u16 = bytes[at + 2 * i] as u16;
        let hi: u16 = bytes[at + 2 * i + 1] as u16;
        slot[i] = lo + hi * 256;
        i += 1;
    }
    assert(bfi_bytes(slot) =~= bytes@.subrange(at as int, at + BFI_BYTES));
    slot
}

impl HBFIOnlyKeys {
    /// The index with its offset taken out: what two keys must share to be
    /// the same key.
    pub open spec fn stream(self) -> HBFI {
        HBFI { ost: 0, ..self.0 }
    }

    /// Whether the two keys name the same stream.
    pub fn same(&self, other: &HBFIOnlyKeys) -> (eq: bool)
        ensures
            eq == (self.stream() == other.stream()),
    {
        let a = HBFI { ost: 0, ..self.0 };
        let b = HBFI { ost: 0, ..other.0 };
        a.same(&b)
    }
}

impl HBFI {
    /// Builds the index of `app/m0d/fun/arg` as produced by `response_pid`,
    /// readable by `request_pid` alone where one is given. The offset is 0.
    pub fn new(
        request_pid: Option<PublicIdentity>,
        response_pid: PublicIdentity,
        app: &str,
        m0d: &str,
        fun: &str,
        arg: &str,
    ) -> (h: HBFI)
        ensures
            h.request_pid == request_pid,
            h.response_pid == response_pid,
            h.app@ == bfi_of(app@),
            h.m0d@ == bfi_of(m0d@),
            h.fun@ == bfi_of(fun@),
            h.arg@ == bfi_of(arg@),
            h.ost == 0,
    {
        HBFI {
            request_pid,
            response_pid,
            app: bloom_filter_index(app),
            m0d: bloom_filter_index(m0d),
            fun: bloom_filter_index(fun),
            arg: bloom_filter_index(arg),
            ost: 0,
        }
    }

    /// The same index at offset `ost`. No slot changes.
    pub fn offset(self, ost: u64) -> (h: HBFI)
        ensures
            h == (HBFI { ost, ..self }),
    {
        HBFI { ost, ..self }
    }

    /// The same index without its requester, as a response travels that must
    /// stay readable by all.
    pub fn cleartext_repr(&self) -> (h: HBFI)
        ensures
            h == (HBFI { request_pid: None, ..*self }),
    {
        HBFI { request_pid: None, ..*self }
    }

    /// The same index for `request_pid` alone to read.
    pub fn encrypt_for(&self, request_pid: PublicIdentity) -> (h: HBFI)
        ensures
            h == (HBFI { request_pid: Some(request_pid), ..*self }),
    {
        HBFI { request_pid: Some(request_pid), ..*self }
    }

    /// The key under which the classifier files this index.
    pub fn fingerprint_keys_only(&self) -> (key: HBFIOnlyKeys)
        ensures
            key.0 == *self,
            key.stream() == (HBFI { ost: 0, ..*self }),
    {
        HBFIOnlyKeys(*self)
    }

    /// The bit indices, one row per name slot, under which a sparse
    /// distributed representation files this index: each lane modulo the
    /// number of bits.
    pub open spec fn sdr_rows(self) -> Seq<Seq<u16>> {
        seq![
            Seq::new(BFI_LANES as nat, |i: int| self.app@[i] % SDR_BITS),
            Seq::new(BFI_LANES as nat, |i: int| self.m0d@[i] % SDR_BITS),
            Seq::new(BFI_LANES as nat, |i: int| self.fun@[i] % SDR_BITS),
            Seq::new(BFI_LANES as nat, |i: int| self.arg@[i] % SDR_BITS),
        ]
    }

    /// Whether the two indices are equal in every field.
    pub fn same(&self, other: &HBFI) -> (eq: bool)
        ensures
            eq == (*self == *other),
    {
        let pids = match (&self.request_pid, &other.request_pid) {
            (Some(a), Some(b)) => a.same(b),
            (None, None) => true,
            _ => false,
        };
        pids && self.response_pid.same(&other.response_pid) && same_slot(&self.app, &other.app)
            && same_slot(&self.m0d, &other.m0d) && same_slot(&self.fun, &other.fun) && same_slot(
            &self.arg,
            &other.arg,
        ) && self.ost == other.ost
    }

    /// Writes the wire form.
    pub fn to_bytes(&self) -> (out: Vec<u8>)
        ensures
            out@ == hbfi_bytes(*self),
            out@.len() == hbfi_size(*self),
    {
        let mut out: Vec<u8> = Vec::new();
        push_slot(&mut out, &self.app);
        push_slot(&mut out, &self.m0d);
        push_slot(&mut out, &self.fun);
        push_slot(&mut out, &self.arg);
        match &self.request_pid {
            Some(pid) => {
                append_bytes(&mut out, pid.bytes.as_slice());
            },
            None => {},
        }
        append_bytes(&mut out, self.response_pid.bytes.as_slice());
        let ost = u64_to_le_bytes(self.ost);
        append_bytes(&mut out, ost.as_slice());
        proof {
            assert(out@ =~= hbfi_bytes(*self));
            lemma_hbfi_bytes_len(*self);
        }
        out
    }

    /// Reads a wire form back. This succeeds exactly on the two lengths that
    /// `to_bytes` produces, and then gives the one index that is written so.
    pub fn from_bytes(bytes: &[u8]) -> (out: Option<HBFI>)
        ensures
            out is Some <==> (bytes@.len() == CLEARTEXT_HBFI_SIZE || bytes@.len()
                == CYPHERTEXT_HBFI_SIZE),
            out matches Some(h) ==> hbfi_bytes(h) == bytes@,
            forall|h: HBFI| hbfi_bytes(h) == bytes@ ==> out == Some(h),
    {
        let len = bytes.len();
        if len != CLEARTEXT_HBFI_SIZE && len != CYPHERTEXT_HBFI_SIZE {
            proof {
                assert forall|h: HBFI| hbfi_bytes(h) == bytes@ implies false by {
                    lemma_hbfi_bytes_len(h);
                }
            }
            return None;
        }
        let app = read_slot(bytes, 0);
        let m0d = read_slot(bytes, 12);
        let fun = read_slot(bytes, 24);
        let arg = read_slot(bytes, 36);
        let (request_pid, at): (Option<PublicIdentity>, usize) = if len == CYPHERTEXT_HBFI_SIZE {
            (Some(PublicIdentity { bytes: take_array::<64>(bytes, 48) }), 112)
        } else {
            (None, 48)
        };
        let response_pid = PublicIdentity { bytes: take_array::<64>(bytes, at) };
        let ost = u64_from_le_bytes(slice_subrange(bytes, at + 64, at + 72));
        let h = HBFI { request_pid, response_pid, app, m0d, fun, arg, ost };
        proof {
            vstd::bytes::lemma_auto_spec_u64_to_from_le_bytes();
            assert(spec_u64_to_le_bytes(ost) == bytes@.subrange(at + 64, at + 72));
            assert(hbfi_bytes(h) =~= bytes@);
            assert forall|g: HBFI| hbfi_bytes(g) == bytes@ implies h == g by {
                lemma_hbfi_bytes_injective(h, g);
            }
        }
        Some(h)
    }

    /// The rows of bit indices of this index, for a sparse distributed
    /// representation.
    pub fn sdr_index(&self) -> (sdri: Sdri)
        ensures
            sdri.deep_view() == self.sdr_rows(),
            crate::packets::sdri_in_range(sdri.deep_view()),
    {
        let mut rows: Vec<Vec<u16>> = Vec::new();
        rows.push(sdr_row_of(&self.app));
        rows.push(sdr_row_of(&self.m0d));
        rows.push(sdr_row_of(&self.fun));
        rows.push(sdr_row_of(&self.arg));
        proof {
            assert(rows.deep_view() =~= self.sdr_rows()) by {
                assert(rows.deep_view().len() == 4);
                assert forall|r: int| 0 <= r < 4 implies rows.deep_view()[r]
                    == self.sdr_rows()[r] by {
                    assert(rows.deep_view()[r] == rows@[r]@);
                }
            }
        }
        rows
    }
}

fn sdr_row_of(slot: &BFI) -> (row: Vec<u16>)
    ensures
        row@ == Seq::new(BFI_LANES as nat, |i: int| slot@[i] % SDR_BITS),
{
    let mut row: Vec<u16> = Vec::new();
    let mut i: usize = 0;
    while i < BFI_LANES
        invariant
            i <= BFI_LANES,
            row@.len() == i,
            forall|j: int| 0 <= j < i ==> row@[j] == slot@[j] % SDR_BITS,
        decreases BFI_LANES - i,
    {
        row.push(slot[i] % SDR_BITS);
        i += 1;
    }
    assert(row@ =~= Seq::new(BFI_LANES as nat, |i: int| slot@[i] % SDR_BITS));
    row
}

} // verus!
