//! The narrow-waist packet: the one schema, request or response, through
//! which every payload passes.

use crate::error::PacketError;
use crate::hbfi::{
    hbfi_bytes, hbfi_size, lemma_hbfi_bytes_injective, lemma_hbfi_bytes_len, HBFI,
    CLEARTEXT_HBFI_SIZE, CYPHERTEXT_HBFI_SIZE,
};
use crate::identity::{
    aead_open, aead_opened, aead_seal, aead_sealed, identity_exchange,
    identity_public, identity_signature, random_nonce, signature_verifies, Nonce,
    PrivateIdentity, PublicIdentity, Signature, Tag,
};
use crate::octets::{append_bytes, copy_range, lemma_concat_split, take_array};
use vstd::bytes::{
    spec_u16_from_le_bytes, spec_u16_to_le_bytes, spec_u64_from_le_bytes, spec_u64_to_le_bytes,
    u16_from_le_bytes, u16_to_le_bytes, u64_from_le_bytes, u64_to_le_bytes,
};
use vstd::prelude::*;
use vstd::slice::slice_subrange;

verus! {

/// Bytes of the block that carries a response's payload.
pub const FRAGMENT_SIZE: usize = 1022;

/// Bytes of a request without a requester.
pub const CLEARTEXT_REQUEST_SIZE: usize = 133;

/// Bytes of a request that names its requester.
pub const CYPHERTEXT_REQUEST_SIZE: usize = 197;

/// Bytes of a response that all may read.
pub const CLEARTEXT_RESPONSE_SIZE: usize = 1237;

/// Bytes of a response sealed for its requester.
pub const CYPHERTEXT_RESPONSE_SIZE: usize = 1317;

pub type Fragment = [u8; 1022];

/// The payload block of a response: in the clear, or sealed with its tag.
#[derive(Clone, Copy, PartialEq, Eq, Debug)]
pub enum ResponseData {
    ClearText { data: Fragment },
    CypherText { data: Fragment, tag: Tag },
}

#[derive(Clone, Copy, PartialEq, Eq, Debug)]
pub enum NarrowWaistPacket {
    Request { hbfi: HBFI, nonce: Nonce },
    Response {
        hbfi: HBFI,
        nonce: Nonce,
        offset: u64,
        total: u64,
        len: u16,
        data: ResponseData,
        signature: Signature,
    },
}

/// `n` zero bytes.
pub open spec fn zeros(n: nat) -> Seq<u8> {
    Seq::new(n, |i: int| 0u8)
}

/// A payload filled up with zero bytes to the size of a fragment.
pub open spec fn padded(payload: Seq<u8>) -> Seq<u8> {
    payload + zeros((FRAGMENT_SIZE - payload.len()) as nat)
}

/// Whether the holder of `sid` is the reader that an index with requester
/// `request_pid` is meant for: no key for an index without requester, the
/// requester's own key otherwise.
pub open spec fn reader_matches(
    request_pid: Option<PublicIdentity>,
    sid: Option<PrivateIdentity>,
) -> bool {
    match (request_pid, sid) {
        (None, None) => true,
        (Some(pid), Some(sk)) => pid@ == identity_public(sk@),
        _ => false,
    }
}

/// The bytes that a response's signature covers: index, nonce, offset, total,
/// payload length and block, the integers little-endian.
pub open spec fn signed_bytes(
    hbfi: HBFI,
    nonce: Nonce,
    offset: u64,
    total: u64,
    len: u16,
    data: ResponseData,
) -> Seq<u8> {
    hbfi_bytes(hbfi) + nonce@ + spec_u64_to_le_bytes(offset) + spec_u64_to_le_bytes(total)
        + spec_u16_to_le_bytes(len) + data.bytes()
}

impl ResponseData {
    /// The wire form: the block, then the tag if there is one.
    pub open spec fn bytes(self) -> Seq<u8> {
        match self {
            ResponseData::ClearText { data } => data@,
            ResponseData::CypherText { data, tag } => data@ + tag@,
        }
    }
}

impl NarrowWaistPacket {
    /// The index that the packet asks for or answers.
    pub open spec fn hbfi_spec(self) -> HBFI {
        match self {
            NarrowWaistPacket::Request { hbfi, .. } => hbfi,
            NarrowWaistPacket::Response { hbfi, .. } => hbfi,
        }
    }

    /// The nonce that ties a response to its request.
    pub open spec fn nonce_spec(self) -> Nonce {
        match self {
            NarrowWaistPacket::Request { nonce, .. } => nonce,
            NarrowWaistPacket::Response { nonce, .. } => nonce,
        }
    }

    /// A response is well formed when its payload fits the fragment and its
    /// block is sealed exactly when the index names a requester.
    pub open spec fn wf(self) -> bool {
        match self {
            NarrowWaistPacket::Request { .. } => true,
            NarrowWaistPacket::Response { hbfi, len, data, .. } => {
                &&& len <= FRAGMENT_SIZE
                &&& data is CypherText <==> hbfi.request_pid is Some
            },
        }
    }

    /// Whether the packet is a response whose signature verifies under the
    /// producer that its index names.
    pub open spec fn authentic(self) -> bool {
        self matches NarrowWaistPacket::Response { hbfi, signature, .. } && signature_verifies(
            hbfi.response_pid@,
            self.signed_part(),
            signature@,
        )
    }

    /// What a response's signature covers: everything but the signature.
    pub open spec fn signed_part(self) -> Seq<u8> {
        match self {
            NarrowWaistPacket::Request { .. } => Seq::empty(),
            NarrowWaistPacket::Response { hbfi, nonce, offset, total, len, data, .. } => {
                signed_bytes(hbfi, nonce, offset, total, len, data)
            },
        }
    }

    /// The wire form: a tag byte, 0 for a request and 1 for a response, the
    /// index and the nonce; for a response then offset, total, payload length,
    /// block and signature.
    pub open spec fn bytes(self) -> Seq<u8> {
        match self {
            NarrowWaistPacket::Request { hbfi, nonce } => seq![0u8] + hbfi_bytes(hbfi) + nonce@,
            NarrowWaistPacket::Response { signature, .. } => seq![1u8] + self.signed_part()
                + signature@,
        }
    }

    /// The length of the wire form of a well-formed packet.
    pub open spec fn size(self) -> nat {
        match self {
            NarrowWaistPacket::Request { hbfi, .. } => 1 + hbfi_size(hbfi) + 12,
            NarrowWaistPacket::Response { hbfi, data, .. } => 1 + hbfi_size(hbfi) + 30
                + data.bytes().len() + 64,
        }
    }

    /// Whether this is the response that the holder of the seed `producer`
    /// makes for `payload` under this packet's index, nonce, offset and total.
    pub open spec fn is_response_of(self, producer: Seq<u8>, payload: Seq<u8>) -> bool {
        match self {
            NarrowWaistPacket::Request { .. } => false,
            NarrowWaistPacket::Response { hbfi, nonce, len, data, signature, .. } => {
                &&& hbfi.response_pid@ == identity_public(producer)
                &&& payload.len() == len
                &&& len <= FRAGMENT_SIZE
                &&& match hbfi.request_pid {
                    None => data matches ResponseData::ClearText { data: block } && block@
                        == padded(payload),
                    Some(pid) => data matches ResponseData::CypherText { data: block, tag } && (
                        block@,
                        tag@,
                    ) == aead_sealed(
                        identity_exchange(producer, pid@),
                        nonce@,
                        padded(payload),
                    ),
                }
                &&& signature@ == identity_signature(producer, self.signed_part())
            },
        }
    }

    /// What `data` returns, in terms of the primitives' results.
    pub open spec fn data_spec(self, sid: Option<PrivateIdentity>) -> Result<Seq<u8>, PacketError> {
        match self {
            NarrowWaistPacket::Request { .. } => Err(PacketError::MalformedPacket),
            NarrowWaistPacket::Response { hbfi, nonce, len, data, signature, .. } => {
                if !self.wf() {
                    Err(PacketError::MalformedPacket)
                } else if !signature_verifies(hbfi.response_pid@, self.signed_part(), signature@) {
                    Err(PacketError::AuthenticationFailed)
                } else if !reader_matches(hbfi.request_pid, sid) {
                    Err(PacketError::WrongKey)
                } else {
                    match data {
                        ResponseData::ClearText { data: block } => Ok(block@.take(len as int)),
                        ResponseData::CypherText { data: block, tag } => {
                            match aead_opened(
                                identity_exchange(sid->0@, hbfi.response_pid@),
                                nonce@,
                                block@,
                                tag@,
                            ) {
                                Some(plain) => Ok(plain.take(len as int)),
                                None => Err(PacketError::AuthenticationFailed),
                            }
                        },
                    }
                }
            },
        }
    }
}

/// The wire form of a well-formed packet has one of four lengths, which
/// tells whether it is a request or a response and whether its index names a
/// requester.
pub proof fn lemma_narrow_waist_size(nw: NarrowWaistPacket)
    requires
        nw.wf(),
    ensures
        nw.bytes().len() == nw.size(),
        nw is Request ==> (nw.size() == CLEARTEXT_REQUEST_SIZE || nw.size()
            == CYPHERTEXT_REQUEST_SIZE),
        nw is Response ==> (nw.size() == CLEARTEXT_RESPONSE_SIZE || nw.size()
            == CYPHERTEXT_RESPONSE_SIZE),
        nw.size() == CYPHERTEXT_REQUEST_SIZE || nw.size() == CYPHERTEXT_RESPONSE_SIZE
            <==> nw.hbfi_spec().request_pid is Some,
{
    vstd::bytes::lemma_auto_spec_u64_to_from_le_bytes();
    vstd::bytes::lemma_auto_spec_u16_to_from_le_bytes();
    lemma_hbfi_bytes_len(nw.hbfi_spec());
}

/// Two well-formed packets with the same wire form are the same packet.
pub proof fn lemma_narrow_waist_bytes_injective(a: NarrowWaistPacket, b: NarrowWaistPacket)
    requires
        a.wf(),
        b.wf(),
        a.bytes() == b.bytes(),
    ensures
        a == b,
{
    vstd::bytes::lemma_auto_spec_u64_to_from_le_bytes();
    vstd::bytes::lemma_auto_spec_u16_to_from_le_bytes();
    lemma_narrow_waist_size(a);
    lemma_narrow_waist_size(b);
    lemma_hbfi_bytes_len(a.hbfi_spec());
    lemma_hbfi_bytes_len(b.hbfi_spec());
    assert(a.bytes()[0] == b.bytes()[0]);
    match (a, b) {
        (
            NarrowWaistPacket::Request { hbfi: ha, nonce: na },
            NarrowWaistPacket::Request { hbfi: hb, nonce: nb },
        ) => {
            lemma_concat_split(seq![0u8] + hbfi_bytes(ha), na@, seq![0u8] + hbfi_bytes(hb), nb@);
            lemma_concat_split(seq![0u8], hbfi_bytes(ha), seq![0u8], hbfi_bytes(hb));
            lemma_hbfi_bytes_injective(ha, hb);
            assert(na =~= nb);
        },
        (
            NarrowWaistPacket::Response {
                hbfi: ha,
                nonce: na,
                offset: oa,
                total: ta,
                len: la,
                data: da,
                signature: sa,
            },
            NarrowWaistPacket::Response {
                hbfi: hb,
                nonce: nb,
                offset: ob,
                total: tb,
                len: lb,
                data: db,
                signature: sb,
            },
        ) => {
            let pa = a.signed_part();
            let pb = b.signed_part();
            lemma_concat_split(seq![1u8] + pa, sa@, seq![1u8] + pb, sb@);
            lemma_concat_split(seq![1u8], pa, seq![1u8], pb);
            assert(sa =~= sb);
            let a5 = hbfi_bytes(ha) + na@ + spec_u64_to_le_bytes(oa) + spec_u64_to_le_bytes(ta)
                + spec_u16_to_le_bytes(la);
            let b5 = hbfi_bytes(hb) + nb@ + spec_u64_to_le_bytes(ob) + spec_u64_to_le_bytes(tb)
                + spec_u16_to_le_bytes(lb);
            lemma_concat_split(a5, da.bytes(), b5, db.bytes());
            let a4 = hbfi_bytes(ha) + na@ + spec_u64_to_le_bytes(oa) + spec_u64_to_le_bytes(ta);
            let b4 = hbfi_bytes(hb) + nb@ + spec_u64_to_le_bytes(ob) + spec_u64_to_le_bytes(tb);
            lemma_concat_split(a4, spec_u16_to_le_bytes(la), b4, spec_u16_to_le_bytes(lb));
            assert(spec_u16_from_le_bytes(spec_u16_to_le_bytes(la)) == la);
            assert(spec_u16_from_le_bytes(spec_u16_to_le_bytes(lb)) == lb);
            let a3 = hbfi_bytes(ha) + na@ + spec_u64_to_le_bytes(oa);
            let b3 = hbfi_bytes(hb) + nb@ + spec_u64_to_le_bytes(ob);
            lemma_concat_split(a3, spec_u64_to_le_bytes(ta), b3, spec_u64_to_le_bytes(tb));
            assert(spec_u64_from_le_bytes(spec_u64_to_le_bytes(ta)) == ta);
            assert(spec_u64_from_le_bytes(spec_u64_to_le_bytes(tb)) == tb);
            lemma_concat_split(
                hbfi_bytes(ha) + na@,
                spec_u64_to_le_bytes(oa),
                hbfi_bytes(hb) + nb@,
                spec_u64_to_le_bytes(ob),
            );
            assert(spec_u64_from_le_bytes(spec_u64_to_le_bytes(oa)) == oa);
            assert(spec_u64_from_le_bytes(spec_u64_to_le_bytes(ob)) == ob);
            lemma_concat_split(hbfi_bytes(ha), na@, hbfi_bytes(hb), nb@);
            lemma_hbfi_bytes_injective(ha, hb);
            assert(na =~= nb);
            match (da, db) {
                (
                    ResponseData::ClearText { data: xa },
                    ResponseData::ClearText { data: xb },
                ) => {
                    assert(xa =~= xb);
                },
                (
                    ResponseData::CypherText { data: xa, tag: ga },
                    ResponseData::CypherText { data: xb, tag: gb },
                ) => {
                    lemma_concat_split(xa@, ga@, xb@, gb@);
                    assert(xa =~= xb);
                    assert(ga =~= gb);
                },
                _ => {},
            }
        },
        _ => {},
    }
}

fn pad_fragment(payload: &Vec<u8>) -> (block: Fragment)
    requires
        payload@.len() <= FRAGMENT_SIZE,
    ensures
        block@ == padded(payload@),
{
    let mut block: Fragment = [0u8; 1022];
    let mut i: usize = 0;
    while i < payload.len()
        invariant
            i <= payload@.len() <= FRAGMENT_SIZE,
            forall|j: int| 0 <= j < i ==> block@[j] == payload@[j],
            forall|j: int| i <= j < FRAGMENT_SIZE ==> block@[j] == 0,
        decreases payload@.len() - i,
    {
        block[i] = payload[i];
        i += 1;
    }
    assert(block@ =~= padded(payload@));
    block
}

fn write_signed_part(
    out: &mut Vec<u8>,
    hbfi: &HBFI,
    nonce: &Nonce,
    offset: u64,
    total: u64,
    len: u16,
    data: &ResponseData,
)
    ensures
        final(out)@ == old(out)@ + signed_bytes(*hbfi, *nonce, offset, total, len, *data),
{
    let h = hbfi.to_bytes();
    append_bytes(out, h.as_slice());
    append_bytes(out, nonce.as_slice());
    let o = u64_to_le_bytes(offset);
    append_bytes(out, o.as_slice());
    let t = u64_to_le_bytes(total);
    append_bytes(out, t.as_slice());
    let l = u16_to_le_bytes(len);
    append_bytes(out, l.as_slice());
    match data {
        ResponseData::ClearText { data } => {
            append_bytes(out, data.as_slice());
        },
        ResponseData::CypherText { data, tag } => {
            append_bytes(out, data.as_slice());
            append_bytes(out, tag.as_slice());
        },
    }
    assert(out@ =~= old(out)@ + signed_bytes(*hbfi, *nonce, offset, total, len, *data));
}

impl NarrowWaistPacket {
    /// A request for `hbfi` under the given nonce.
    pub fn request_with_nonce(hbfi: HBFI, nonce: Nonce) -> (nw: NarrowWaistPacket)
        ensures
            nw == (NarrowWaistPacket::Request { hbfi, nonce }),
    {
        NarrowWaistPacket::Request { hbfi, nonce }
    }

    /// A request for `hbfi` under a fresh random nonce.
    pub fn request(hbfi: HBFI) -> (nw: NarrowWaistPacket)
        ensures
            nw is Request,
            nw.hbfi_spec() == hbfi,
    {
        NarrowWaistPacket::request_with_nonce(hbfi, random_nonce())
    }

    /// The response that `sid` makes for `data` under `hbfi` and `nonce`.
    ///
    /// The payload travels in the clear where the index names no requester
    /// and sealed for the requester otherwise; either way `sid` signs the
    /// whole response. A payload longer than a fragment is refused as
    /// malformed; a `sid` that is not the producer that `hbfi` names is
    /// refused as the wrong key.
    pub fn response_with_nonce(
        sid: &PrivateIdentity,
        hbfi: HBFI,
        data: &Vec<u8>,
        offset: u64,
        total: u64,
        nonce: Nonce,
    ) -> (out: Result<NarrowWaistPacket, PacketError>)
        ensures
            data@.len() > FRAGMENT_SIZE ==> out == Err::<NarrowWaistPacket, PacketError>(
                PacketError::MalformedPacket,
            ),
            data@.len() <= FRAGMENT_SIZE && hbfi.response_pid@ != identity_public(sid@) ==> out
                == Err::<NarrowWaistPacket, PacketError>(PacketError::WrongKey),
            data@.len() <= FRAGMENT_SIZE && hbfi.response_pid@ == identity_public(sid@)
                ==> out is Ok,
            out matches Ok(nw) ==> {
                &&& nw matches NarrowWaistPacket::Response {
                    hbfi: h,
                    nonce: n,
                    offset: o,
                    total: t,
                    ..
                } && h == hbfi && n == nonce && o == offset && t == total
                &&& nw.wf()
                &&& nw.is_response_of(sid@, data@)
            },
    {
        if data.len() > FRAGMENT_SIZE {
            return Err(PacketError::MalformedPacket);
        }
        let own = sid.public_id();
        if !own.same(&hbfi.response_pid) {
            proof {
                crate::identity::lemma_public_identity_ext(own, hbfi.response_pid);
            }
            return Err(PacketError::WrongKey);
        }
        let len: u16 = data.len() as u16;
        let block = pad_fragment(data);
        let body = match &hbfi.request_pid {
            None => ResponseData::ClearText { data: block },
            Some(pid) => {
                let key = sid.shared_secret(pid);
                let (sealed, tag) = aead_seal(&key, &nonce, block.as_slice());
                ResponseData::CypherText { data: take_array::<1022>(sealed.as_slice(), 0), tag }
            },
        };
        let mut message: Vec<u8> = Vec::new();
        write_signed_part(&mut message, &hbfi, &nonce, offset, total, len, &body);
        let signature = sid.sign(message.as_slice());
        let nw = NarrowWaistPacket::Response {
            hbfi,
            nonce,
            offset,
            total,
            len,
            data: body,
            signature,
        };
        proof {
            assert(message@ =~= nw.signed_part());
            if let Some(pid) = hbfi.request_pid {
                let sealed_spec = aead_sealed(
                    identity_exchange(sid@, pid@),
                    nonce@,
                    padded(data@),
                );
                assert(body matches ResponseData::CypherText { data: d, tag: g } && d@
                    =~= sealed_spec.0 && g@ == sealed_spec.1);
            }
        }
        Ok(nw)
    }

    /// As `response_with_nonce`, under a fresh random nonce.
    pub fn response(
        sid: &PrivateIdentity,
        hbfi: HBFI,
        data: &Vec<u8>,
        offset: u64,
        total: u64,
    ) -> (out: Result<NarrowWaistPacket, PacketError>)
        ensures
            data@.len() > FRAGMENT_SIZE ==> out == Err::<NarrowWaistPacket, PacketError>(
                PacketError::MalformedPacket,
            ),
            data@.len() <= FRAGMENT_SIZE && hbfi.response_pid@ != identity_public(sid@) ==> out
                == Err::<NarrowWaistPacket, PacketError>(PacketError::WrongKey),
            data@.len() <= FRAGMENT_SIZE && hbfi.response_pid@ == identity_public(sid@)
                ==> out is Ok,
            out matches Ok(nw) ==> {
                &&& nw matches NarrowWaistPacket::Response { hbfi: h, offset: o, total: t, .. }
                    && h == hbfi && o == offset && t == total
                &&& nw.wf()
                &&& nw.is_response_of(sid@, data@)
            },
    {
        NarrowWaistPacket::response_with_nonce(sid, hbfi, data, offset, total, random_nonce())
    }

    /// Turns a pending request into its response: same index, same nonce.
    /// A response cannot be turned again and is refused as malformed.
    pub fn transmute(&self, sid: &PrivateIdentity, data: &Vec<u8>, offset: u64, total: u64) -> (out:
        Result<NarrowWaistPacket, PacketError>)
        ensures
            self is Response ==> out == Err::<NarrowWaistPacket, PacketError>(
                PacketError::MalformedPacket,
            ),
            self is Request && data@.len() > FRAGMENT_SIZE ==> out == Err::<
                NarrowWaistPacket,
                PacketError,
            >(PacketError::MalformedPacket),
            self is Request && data@.len() <= FRAGMENT_SIZE && self.hbfi_spec().response_pid@
                != identity_public(sid@) ==> out == Err::<NarrowWaistPacket, PacketError>(
                PacketError::WrongKey,
            ),
            self is Request && data@.len() <= FRAGMENT_SIZE && self.hbfi_spec().response_pid@
                == identity_public(sid@) ==> out is Ok,
            out matches Ok(nw) ==> {
                &&& nw matches NarrowWaistPacket::Response { offset: o, total: t, .. } && o
                    == offset && t == total
                &&& nw.hbfi_spec() == self.hbfi_spec()
                &&& nw.nonce_spec() == self.nonce_spec()
                &&& nw.wf()
                &&& nw.is_response_of(sid@, data@)
            },
    {
        match self {
            NarrowWaistPacket::Request { hbfi, nonce } => {
                NarrowWaistPacket::response_with_nonce(sid, *hbfi, data, offset, total, *nonce)
            },
            NarrowWaistPacket::Response { .. } => Err(PacketError::MalformedPacket),
        }
    }

    /// Whether the packet is well formed.
    pub fn is_wf(&self) -> (ok: bool)
        ensures
            ok == self.wf(),
    {
        match self {
            NarrowWaistPacket::Request { .. } => true,
            NarrowWaistPacket::Response { hbfi, len, data, .. } => {
                let sealed = match data {
                    ResponseData::ClearText { .. } => false,
                    ResponseData::CypherText { .. } => true,
                };
                *len as usize <= FRAGMENT_SIZE && sealed == hbfi.request_pid.is_some()
            },
        }
    }

    /// The index of the packet.
    pub fn hbfi(&self) -> (h: HBFI)
        ensures
            h == self.hbfi_spec(),
    {
        match self {
            NarrowWaistPacket::Request { hbfi, .. } => *hbfi,
            NarrowWaistPacket::Response { hbfi, .. } => *hbfi,
        }
    }

    /// The nonce of the packet.
    pub fn nonce(&self) -> (n: Nonce)
        ensures
            n == self.nonce_spec(),
    {
        match self {
            NarrowWaistPacket::Request { nonce, .. } => *nonce,
            NarrowWaistPacket::Response { nonce, .. } => *nonce,
        }
    }

    /// Whether the packet is a response whose signature verifies under the
    /// producer that its index names. Only such a response may be cached.
    pub fn verify(&self) -> (ok: bool)
        ensures
            ok == self.authentic(),
            forall|producer: Seq<u8>, payload: Seq<u8>| #[trigger]
                self.is_response_of(producer, payload) && producer.len() == 32 ==> ok,
    {
        match self {
            NarrowWaistPacket::Request { .. } => false,
            NarrowWaistPacket::Response { hbfi, nonce, offset, total, len, data, signature } => {
                let mut message: Vec<u8> = Vec::new();
                write_signed_part(&mut message, hbfi, nonce, *offset, *total, *len, data);
                assert(message@ =~= self.signed_part());
                hbfi.response_pid.verify(message.as_slice(), signature)
            },
        }
    }

    /// Verifies the response and hands out its payload, decrypted where it is
    /// sealed.
    ///
    /// The payload comes out exactly for the reader the response is meant
    /// for: without a key where the index names no requester, with the
    /// requester's own private identity otherwise. Any other reader gets
    /// `WrongKey`. A request, or a response that is not well formed, is
    /// `MalformedPacket`; a signature or tag that does not verify is
    /// `AuthenticationFailed`.
    pub fn data(&self, sid: Option<PrivateIdentity>) -> (out: Result<Vec<u8>, PacketError>)
        ensures
            match (out, self.data_spec(sid)) {
                (Ok(bytes), Ok(expected)) => bytes@ == expected,
                (Err(e), Err(expected)) => e == expected,
                _ => false,
            },
            out is Ok ==> reader_matches(self.hbfi_spec().request_pid, sid),
            forall|producer: Seq<u8>, payload: Seq<u8>| #[trigger]
                self.is_response_of(producer, payload) && producer.len() == 32 && reader_matches(
                    self.hbfi_spec().request_pid,
                    sid,
                ) ==> out is Ok && out->Ok_0@ == payload,
    {
        match self {
            NarrowWaistPacket::Request { .. } => Err(PacketError::MalformedPacket),
            NarrowWaistPacket::Response { hbfi, nonce, len, data, signature, .. } => {
                let sealed = match data {
                    ResponseData::ClearText { .. } => false,
                    ResponseData::CypherText { .. } => true,
                };
                if *len as usize > FRAGMENT_SIZE || sealed != hbfi.request_pid.is_some() {
                    return Err(PacketError::MalformedPacket);
                }
                if !self.verify() {
                    return Err(PacketError::AuthenticationFailed);
                }
                match data {
                    ResponseData::ClearText { data: block } => {
                        if sid.is_some() {
                            return Err(PacketError::WrongKey);
                        }
                        let whole = vstd::slice::slice_to_vec(block.as_slice());
                        let bytes = copy_range(&whole, 0, *len as usize);
                        proof {
                            assert forall|producer: Seq<u8>, payload: Seq<u8>| #[trigger]
                                self.is_response_of(producer, payload) implies bytes@
                                == payload by {
                                assert(padded(payload).take(*len as int) =~= payload);
                            }
                        }
                        Ok(bytes)
                    },
                    ResponseData::CypherText { data: block, tag } => {
                        let sk = match sid {
                            Some(sk) => sk,
                            None => {
                                return Err(PacketError::WrongKey);
                            },
                        };
                        let pid = match &hbfi.request_pid {
                            Some(pid) => *pid,
                            None => {
                                return Err(PacketError::MalformedPacket);
                            },
                        };
                        let own = sk.public_id();
                        if !own.same(&pid) {
                            proof {
                                crate::identity::lemma_public_identity_ext(own, pid);
                            }
                            return Err(PacketError::WrongKey);
                        }
                        let key = sk.shared_secret(&hbfi.response_pid);
                        match aead_open(&key, nonce, block.as_slice(), tag) {
                            None => {
                                proof {
                                    assert forall|producer: Seq<u8>, payload: Seq<u8>| #[trigger]
                                        self.is_response_of(producer, payload) && producer.len()
                                            == 32 implies false by {
                                        assert(key@ == identity_exchange(producer, pid@));
                                    }
                                }
                                Err(PacketError::AuthenticationFailed)
                            },
                            Some(plain) => {
                                let bytes = copy_range(&plain, 0, *len as usize);
                                proof {
                                    assert forall|producer: Seq<u8>, payload: Seq<u8>| #[trigger]
                                        self.is_response_of(producer, payload) && producer.len()
                                            == 32 implies bytes@ == payload by {
                                        assert(key@ == identity_exchange(producer, pid@));
                                        assert(plain@ == padded(payload));
                                        assert(padded(payload).take(*len as int) =~= payload);
                                    }
                                }
                                Ok(bytes)
                            },
                        }
                    },
                }
            },
        }
    }

    /// Seals a response that travels in the clear for `request_pid`, as its
    /// producer `sid`: same nonce, offset, total and payload, under the index
    /// that names the requester. Anything but a verified clear response of
    /// `sid` is refused.
    pub fn encrypt_for(&self, sid: &PrivateIdentity, request_pid: PublicIdentity) -> (out: Result<
        NarrowWaistPacket,
        PacketError,
    >)
        ensures
            out matches Ok(nw) ==> {
                &&& self matches NarrowWaistPacket::Response { hbfi, nonce, offset, total, .. }
                &&& nw matches NarrowWaistPacket::Response {
                    hbfi: h,
                    nonce: n,
                    offset: o,
                    total: t,
                    ..
                }
                &&& h == (HBFI { request_pid: Some(request_pid), ..*hbfi })
                &&& n == nonce && o == offset && t == total
                &&& nw.wf()
                &&& self.data_spec(None) matches Ok(payload) && nw.is_response_of(sid@, payload)
            },
            out matches Err(e) ==> (match self.data_spec(None) {
                Err(inner) => e == inner,
                Ok(_) => e == PacketError::WrongKey && self.hbfi_spec().response_pid@
                    != identity_public(sid@),
            }),
    {
        let payload = match self.data(None) {
            Ok(payload) => payload,
            Err(e) => {
                return Err(e);
            },
        };
        match self {
            NarrowWaistPacket::Request { .. } => Err(PacketError::MalformedPacket),
            NarrowWaistPacket::Response { hbfi, nonce, offset, total, .. } => {
                NarrowWaistPacket::response_with_nonce(
                    sid,
                    hbfi.encrypt_for(request_pid),
                    &payload,
                    *offset,
                    *total,
                    *nonce,
                )
            },
        }
    }

    /// Writes the wire form. That of a well-formed packet has the length
    /// that tells what the packet is.
    pub fn to_bytes(&self) -> (out: Vec<u8>)
        ensures
            out@ == self.bytes(),
            self.wf() ==> out@.len() == self.size(),
    {
        let mut out: Vec<u8> = Vec::new();
        match self {
            NarrowWaistPacket::Request { hbfi, nonce } => {
                out.push(0u8);
                let h = hbfi.to_bytes();
                append_bytes(&mut out, h.as_slice());
                append_bytes(&mut out, nonce.as_slice());
                assert(out@ =~= self.bytes());
            },
            NarrowWaistPacket::Response { hbfi, nonce, offset, total, len, data, signature } => {
                out.push(1u8);
                write_signed_part(&mut out, hbfi, nonce, *offset, *total, *len, data);
                append_bytes(&mut out, signature.as_slice());
                assert(out@ =~= self.bytes());
            },
        }
        proof {
            if self.wf() {
                lemma_narrow_waist_size(*self);
            }
        }
        out
    }

    /// Whether `bytes` has the tag and the length of a packet's wire form.
    pub open spec fn readable(bytes: Seq<u8>) -> bool {
        ||| bytes.len() == CLEARTEXT_REQUEST_SIZE && bytes[0] == 0
        ||| bytes.len() == CYPHERTEXT_REQUEST_SIZE && bytes[0] == 0
        ||| bytes.len() == CLEARTEXT_RESPONSE_SIZE && bytes[0] == 1 && spec_u16_from_le_bytes(
            bytes.subrange(149, 151),
        ) <= FRAGMENT_SIZE
        ||| bytes.len() == CYPHERTEXT_RESPONSE_SIZE && bytes[0] == 1 && spec_u16_from_le_bytes(
            bytes.subrange(213, 215),
        ) <= FRAGMENT_SIZE
    }

    /// Reads a wire form back. Whether the index names a requester, and so
    /// whether the block is sealed, shows in the length. This succeeds on
    /// exactly the wire forms of well-formed packets, and gives the one packet
    /// that is written so.
    pub fn from_bytes(bytes: &[u8]) -> (out: Option<NarrowWaistPacket>)
        ensures
            out is Some <==> NarrowWaistPacket::readable(bytes@),
            out matches Some(nw) ==> nw.wf() && nw.bytes() == bytes@,
            forall|nw: NarrowWaistPacket| nw.wf() && nw.bytes() == bytes@ ==> out == Some(nw),
            out == NarrowWaistPacket::parsed(bytes@),
    {
        let n = bytes.len();
        let out = if n == CLEARTEXT_REQUEST_SIZE || n == CYPHERTEXT_REQUEST_SIZE {
            if bytes[0] != 0 {
                None
            } else {
                match HBFI::from_bytes(slice_subrange(bytes, 1, n - 12)) {
                    None => None,
                    Some(hbfi) => {
                        let nonce = take_array::<12>(bytes, n - 12);
                        let nw = NarrowWaistPacket::Request { hbfi, nonce };
                        assert(nw.bytes() =~= bytes@);
                        Some(nw)
                    },
                }
            }
        } else if n == CLEARTEXT_RESPONSE_SIZE || n == CYPHERTEXT_RESPONSE_SIZE {
            let sealed = n == CYPHERTEXT_RESPONSE_SIZE;
            let hsize: usize = if sealed {
                CYPHERTEXT_HBFI_SIZE
            } else {
                CLEARTEXT_HBFI_SIZE
            };
            let len = u16_from_le_bytes(slice_subrange(bytes, hsize + 29, hsize + 31));
            if bytes[0] != 1 || len as usize > FRAGMENT_SIZE {
                None
            } else {
                match HBFI::from_bytes(slice_subrange(bytes, 1, 1 + hsize)) {
                    None => None,
                    Some(hbfi) => {
                        let nonce = take_array::<12>(bytes, 1 + hsize);
                        let offset = u64_from_le_bytes(
                            slice_subrange(bytes, hsize + 13, hsize + 21),
                        );
                        let total = u64_from_le_bytes(
                            slice_subrange(bytes, hsize + 21, hsize + 29),
                        );
                        let block = take_array::<1022>(bytes, hsize + 31);
                        let data = if sealed {
                            ResponseData::CypherText {
                                data: block,
                                tag: take_array::<16>(bytes, hsize + 31 + 1022),
                            }
                        } else {
                            ResponseData::ClearText { data: block }
                        };
                        let signature = take_array::<64>(bytes, n - 64);
                        let nw = NarrowWaistPacket::Response {
                            hbfi,
                            nonce,
                            offset,
                            total,
                            len,
                            data,
                            signature,
                        };
                        proof {
                            vstd::bytes::lemma_auto_spec_u64_to_from_le_bytes();
                            vstd::bytes::lemma_auto_spec_u16_to_from_le_bytes();
                            lemma_hbfi_bytes_len(hbfi);
                            assert(spec_u64_to_le_bytes(offset) == bytes@.subrange(
                                hsize + 13,
                                hsize + 21,
                            ));
                            assert(spec_u64_to_le_bytes(total) == bytes@.subrange(
                                hsize + 21,
                                hsize + 29,
                            ));
                            assert(spec_u16_to_le_bytes(len) == bytes@.subrange(
                                hsize + 29,
                                hsize + 31,
                            ));
                            assert(nw.bytes() =~= bytes@);
                        }
                        Some(nw)
                    },
                }
            }
        } else {
            None
        };
        proof {
            assert forall|nw: NarrowWaistPacket| nw.wf() && nw.bytes() == bytes@ implies out
                == Some(nw) by {
                lemma_narrow_waist_readable(nw);
                lemma_hbfi_bytes_len(nw.hbfi_spec());
                assert(out is Some);
                lemma_narrow_waist_bytes_injective(out->0, nw);
            }
            if out is Some {
                let found = out->0;
                assert(found.wf() && found.bytes() == bytes@);
            }
        }
        out
    }

    /// The packet that `bytes` is the wire form of, if there is one.
    pub open spec fn parsed(bytes: Seq<u8>) -> Option<NarrowWaistPacket> {
        if NarrowWaistPacket::readable(bytes) {
            Some(choose|nw: NarrowWaistPacket| nw.wf() && nw.bytes() == bytes)
        } else {
            None
        }
    }
}

/// The wire form of a well-formed packet has the tag and the length that
/// `from_bytes` asks for.
pub proof fn lemma_narrow_waist_readable(nw: NarrowWaistPacket)
    requires
        nw.wf(),
    ensures
        NarrowWaistPacket::readable(nw.bytes()),
{
    vstd::bytes::lemma_auto_spec_u64_to_from_le_bytes();
    vstd::bytes::lemma_auto_spec_u16_to_from_le_bytes();
    lemma_narrow_waist_size(nw);
    lemma_hbfi_bytes_len(nw.hbfi_spec());
    match nw {
        NarrowWaistPacket::Request { .. } => {
            assert(nw.bytes()[0] == 0);
        },
        NarrowWaistPacket::Response { hbfi, len, .. } => {
            assert(nw.bytes()[0] == 1);
            let at = (1 + hbfi_size(hbfi) + 28) as int;
            assert(nw.bytes().subrange(at, at + 2) =~= spec_u16_to_le_bytes(len));
        },
    }
}

} // verus!
