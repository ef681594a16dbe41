//! Link identities and the packets that cross a link: a narrow-waist packet
//! with a hint where to reply, in the clear or sealed for the receiving link.

use crate::error::PacketError;
use crate::identity::{
    aead_open, aead_opened, aead_seal, aead_sealed, cipher_nonce, identity_exchange,
    identity_public, random_link_nonce, random_number, widen_nonce, LinkNonce, PrivateIdentity,
    PublicIdentity,
};
use crate::narrow_waist::{
    lemma_narrow_waist_bytes_injective, lemma_narrow_waist_readable, lemma_narrow_waist_size,
    NarrowWaistPacket, CLEARTEXT_REQUEST_SIZE, CLEARTEXT_RESPONSE_SIZE, CYPHERTEXT_REQUEST_SIZE,
    CYPHERTEXT_RESPONSE_SIZE,
};
use crate::octets::{append_bytes, lemma_concat_split, take_array};
use vstd::bytes::{
    spec_u16_from_le_bytes, spec_u16_to_le_bytes, spec_u32_from_le_bytes, spec_u32_to_le_bytes,
    u16_from_le_bytes, u16_to_le_bytes, u32_from_le_bytes, u32_to_le_bytes,
};
use vstd::prelude::*;
use vstd::slice::slice_subrange;

verus! {

/// Bytes that come before the link packet in every frame: the shape tag and
/// the sender's public identity.
pub const FRAME_HEAD_SIZE: usize = 65;

/// Bytes that sealing adds to a frame: the nonce and the tag.
pub const SEAL_OVERHEAD: usize = 24;

/// Where a reply to a link packet should be sent.
#[derive(Clone, Copy, PartialEq, Eq, Debug)]
pub enum ReplyTo {
    /// A UDP socket at an IPv4 address.
    UdpIp { ip: [u8; 4], port: u16 },
    /// A UDP socket at an IPv6 address.
    UdpIp6 { ip6: [u8; 16], port: u16 },
    /// A radio bearer, by channel number.
    Rf(u32),
    /// A channel inside this process.
    Mpsc,
}

/// A link as one of its ends sees it: a number to file it under, the private
/// identity of this end, the public identity of the other end where it is
/// known, and where this end can be reached.
#[derive(Clone, Copy, PartialEq, Eq, Debug)]
pub struct LinkId {
    pub lookup_id: u32,
    pub link_sid: PrivateIdentity,
    pub remote_link_pid: Option<PublicIdentity>,
    pub reply_to: ReplyTo,
}

/// The unit that crosses a link.
#[derive(Clone, Copy, PartialEq, Eq, Debug)]
pub struct LinkPacket {
    pub reply_to: ReplyTo,
    pub nw: NarrowWaistPacket,
}

/// A link packet together with the link it arrived on or is to leave by. It
/// never leaves the process.
#[derive(Clone, Copy, PartialEq, Eq, Debug)]
pub struct InterLinkPacket {
    pub link_id: LinkId,
    pub lp: LinkPacket,
}

impl ReplyTo {
    /// The wire form: a tag byte, then the address. Tag 0 goes before the
    /// address of a UDP socket, which is the four bytes of an IPv4 address or
    /// the sixteen bytes of an IPv6 address and then a little-endian port,
    /// tag 1 before a little-endian channel number, and tag 2 stands alone.
    pub open spec fn bytes(self) -> Seq<u8> {
        match self {
            ReplyTo::UdpIp { ip, port } => seq![0u8] + ip@ + spec_u16_to_le_bytes(port),
            ReplyTo::UdpIp6 { ip6, port } => seq![0u8] + ip6@ + spec_u16_to_le_bytes(port),
            ReplyTo::Rf(channel) => seq![1u8] + spec_u32_to_le_bytes(channel),
            ReplyTo::Mpsc => seq![2u8],
        }
    }

    /// The length of the wire form.
    pub open spec fn size(self) -> nat {
        match self {
            ReplyTo::UdpIp { .. } => 7,
            ReplyTo::UdpIp6 { .. } => 19,
            ReplyTo::Rf(_) => 5,
            ReplyTo::Mpsc => 1,
        }
    }

    /// The length of the reply hint at the start of the `total` bytes of a
    /// link packet whose first byte is `tag`; 0 where no hint starts so. A
    /// UDP address is that of an IPv4 socket where what follows it then has
    /// the length of a narrow-waist packet, and that of an IPv6 socket
    /// otherwise.
    pub open spec fn size_in(tag: u8, total: nat) -> nat {
        if tag == 0 {
            if is_packet_size(total - 7) {
                7
            } else {
                19
            }
        } else if tag == 1 {
            5
        } else if tag == 2 {
            1
        } else {
            0
        }
    }

    fn write(&self, out: &mut Vec<u8>)
        ensures
            final(out)@ == old(out)@ + self.bytes(),
    {
        match self {
            ReplyTo::UdpIp { ip, port } => {
                out.push(0u8);
                append_bytes(out, ip.as_slice());
                let p = u16_to_le_bytes(*port);
                append_bytes(out, p.as_slice());
            },
            ReplyTo::UdpIp6 { ip6, port } => {
                out.push(0u8);
                append_bytes(out, ip6.as_slice());
                let p = u16_to_le_bytes(*port);
                append_bytes(out, p.as_slice());
            },
            ReplyTo::Rf(channel) => {
                out.push(1u8);
                let c = u32_to_le_bytes(*channel);
                append_bytes(out, c.as_slice());
            },
            ReplyTo::Mpsc => {
                out.push(2u8);
            },
        }
        assert(out@ =~= old(out)@ + self.bytes());
    }

    /// Reads the hint that the link packet `bytes` starts with.
    fn read(bytes: &[u8]) -> (out: Option<ReplyTo>)
        ensures
            out is Some <==> (bytes@.len() >= 1 && 1 <= ReplyTo::size_in(
                bytes@[0],
                bytes@.len(),
            ) <= bytes@.len()),
            out matches Some(r) ==> r.size() <= bytes@.len() && r.bytes() == bytes@.take(
                r.size() as int,
            ) && r.size() == ReplyTo::size_in(bytes@[0], bytes@.len()),
    {
        let n = bytes.len();
        if n == 0 {
            return None;
        }
        let tag = bytes[0];
        proof {
            vstd::bytes::lemma_auto_spec_u16_to_from_le_bytes();
            vstd::bytes::lemma_auto_spec_u32_to_from_le_bytes();
        }
        if tag == 0 && n >= 7 && packet_size(n - 7) {
            let ip = take_array::<4>(bytes, 1);
            let port = u16_from_le_bytes(slice_subrange(bytes, 5, 7));
            let r = ReplyTo::UdpIp { ip, port };
            assert(spec_u16_to_le_bytes(port) == bytes@.subrange(5, 7));
            assert(r.bytes() =~= bytes@.take(7));
            Some(r)
        } else if tag == 0 && n >= 19 {
            let ip6 = take_array::<16>(bytes, 1);
            let port = u16_from_le_bytes(slice_subrange(bytes, 17, 19));
            let r = ReplyTo::UdpIp6 { ip6, port };
            assert(spec_u16_to_le_bytes(port) == bytes@.subrange(17, 19));
            assert(r.bytes() =~= bytes@.take(19));
            Some(r)
        } else if tag == 1 && n >= 5 {
            let channel = u32_from_le_bytes(slice_subrange(bytes, 1, 5));
            let r = ReplyTo::Rf(channel);
            assert(spec_u32_to_le_bytes(channel) == bytes@.subrange(1, 5));
            assert(r.bytes() =~= bytes@.take(5));
            Some(r)
        } else if tag == 2 {
            assert(ReplyTo::Mpsc.bytes() =~= bytes@.take(1));
            Some(ReplyTo::Mpsc)
        } else {
            None
        }
    }
}

/// Whether `n` is the length of the wire form of a narrow-waist packet.
pub open spec fn is_packet_size(n: int) -> bool {
    n == CLEARTEXT_REQUEST_SIZE || n == CYPHERTEXT_REQUEST_SIZE || n == CLEARTEXT_RESPONSE_SIZE || n
        == CYPHERTEXT_RESPONSE_SIZE
}

fn packet_size(n: usize) -> (yes: bool)
    ensures
        yes == is_packet_size(n as int),
{
    n == CLEARTEXT_REQUEST_SIZE || n == CYPHERTEXT_REQUEST_SIZE || n == CLEARTEXT_RESPONSE_SIZE || n
        == CYPHERTEXT_RESPONSE_SIZE
}

/// The wire form of a reply hint has the length that `size` tells, and that
/// `size_in` tells where a narrow-waist packet of `rest` bytes follows.
pub proof fn lemma_reply_to_size(r: ReplyTo, rest: nat)
    ensures
        r.bytes().len() == r.size(),
        is_packet_size(rest as int) ==> r.size() == ReplyTo::size_in(r.bytes()[0], r.size() + rest),
{
    vstd::bytes::lemma_auto_spec_u16_to_from_le_bytes();
    vstd::bytes::lemma_auto_spec_u32_to_from_le_bytes();
}

/// Two reply hints with the same wire form are the same hint.
pub proof fn lemma_reply_to_bytes_injective(a: ReplyTo, b: ReplyTo)
    requires
        a.bytes() == b.bytes(),
    ensures
        a == b,
{
    vstd::bytes::lemma_auto_spec_u16_to_from_le_bytes();
    vstd::bytes::lemma_auto_spec_u32_to_from_le_bytes();
    lemma_reply_to_size(a, 0);
    lemma_reply_to_size(b, 0);
    assert(a.bytes()[0] == b.bytes()[0]);
    assert(a.bytes()[0] == (match a {
        ReplyTo::UdpIp { .. } => 0u8,
        ReplyTo::UdpIp6 { .. } => 0u8,
        ReplyTo::Rf(_) => 1u8,
        ReplyTo::Mpsc => 2u8,
    }));
    assert(b.bytes()[0] == (match b {
        ReplyTo::UdpIp { .. } => 0u8,
        ReplyTo::UdpIp6 { .. } => 0u8,
        ReplyTo::Rf(_) => 1u8,
        ReplyTo::Mpsc => 2u8,
    }));
    match (a, b) {
        (ReplyTo::UdpIp { ip: ia, port: pa }, ReplyTo::UdpIp { ip: ib, port: pb }) => {
            lemma_concat_split(
                seq![0u8] + ia@,
                spec_u16_to_le_bytes(pa),
                seq![0u8] + ib@,
                spec_u16_to_le_bytes(pb),
            );
            lemma_concat_split(seq![0u8], ia@, seq![0u8], ib@);
            assert(ia =~= ib);
            assert(spec_u16_from_le_bytes(spec_u16_to_le_bytes(pa)) == pa);
            assert(spec_u16_from_le_bytes(spec_u16_to_le_bytes(pb)) == pb);
        },
        (ReplyTo::UdpIp6 { ip6: ia, port: pa }, ReplyTo::UdpIp6 { ip6: ib, port: pb }) => {
            lemma_concat_split(
                seq![0u8] + ia@,
                spec_u16_to_le_bytes(pa),
                seq![0u8] + ib@,
                spec_u16_to_le_bytes(pb),
            );
            lemma_concat_split(seq![0u8], ia@, seq![0u8], ib@);
            assert(ia =~= ib);
            assert(spec_u16_from_le_bytes(spec_u16_to_le_bytes(pa)) == pa);
            assert(spec_u16_from_le_bytes(spec_u16_to_le_bytes(pb)) == pb);
        },
        (ReplyTo::Rf(ca), ReplyTo::Rf(cb)) => {
            lemma_concat_split(
                seq![1u8],
                spec_u32_to_le_bytes(ca),
                seq![1u8],
                spec_u32_to_le_bytes(cb),
            );
            assert(spec_u32_from_le_bytes(spec_u32_to_le_bytes(ca)) == ca);
            assert(spec_u32_from_le_bytes(spec_u32_to_le_bytes(cb)) == cb);
        },
        _ => {},
    }
}

impl LinkPacket {
    pub open spec fn wf(self) -> bool {
        self.nw.wf()
    }

    /// The wire form: the reply hint, then the narrow-waist packet.
    pub open spec fn bytes(self) -> Seq<u8> {
        self.reply_to.bytes() + self.nw.bytes()
    }

    /// The length of the wire form of a well-formed link packet.
    pub open spec fn size(self) -> nat {
        self.reply_to.size() + self.nw.size()
    }

    /// Whether `bytes` starts with a reply hint and goes on with what has the
    /// tag and the length of a narrow-waist packet.
    pub open spec fn readable(bytes: Seq<u8>) -> bool {
        &&& bytes.len() >= 1
        &&& 1 <= ReplyTo::size_in(bytes[0], bytes.len()) <= bytes.len()
        &&& NarrowWaistPacket::readable(
            bytes.skip(ReplyTo::size_in(bytes[0], bytes.len()) as int),
        )
    }

    /// The frame that carries this packet in the clear: a 0 byte, the
    /// sender's public identity, the packet.
    pub open spec fn clear_frame(self, sender: Seq<u8>) -> Seq<u8> {
        seq![0u8] + identity_public(sender) + self.bytes()
    }

    /// The frame that carries this packet from the holder of the seed
    /// `sender` sealed for `receiver`: a 1 byte, the sender's public identity,
    /// the nonce, then ciphertext and tag of the packet under the secret that
    /// the two identities share.
    pub open spec fn sealed_frame(self, sender: Seq<u8>, receiver: Seq<u8>, nonce: Seq<u8>) -> Seq<
        u8,
    > {
        let sealed = aead_sealed(
            identity_exchange(sender, receiver),
            cipher_nonce(nonce),
            self.bytes(),
        );
        seq![1u8] + identity_public(sender) + nonce + sealed.0 + sealed.1
    }

    /// The frame that the link `link_id` sends for this packet: sealed where
    /// it knows the other end, in the clear otherwise.
    pub open spec fn frame(self, link_id: LinkId, nonce: Seq<u8>) -> Seq<u8> {
        match link_id.remote_link_pid {
            Some(pid) => self.sealed_frame(link_id.link_sid@, pid@, nonce),
            None => self.clear_frame(link_id.link_sid@),
        }
    }

    pub fn new(reply_to: ReplyTo, nw: NarrowWaistPacket) -> (lp: LinkPacket)
        ensures
            lp == (LinkPacket { reply_to, nw }),
    {
        LinkPacket { reply_to, nw }
    }

    pub fn narrow_waist(&self) -> (nw: NarrowWaistPacket)
        ensures
            nw == self.nw,
    {
        self.nw
    }

    pub fn reply_to(&self) -> (r: ReplyTo)
        ensures
            r == self.reply_to,
    {
        self.reply_to
    }

    /// Writes the wire form.
    pub fn to_bytes(&self) -> (out: Vec<u8>)
        ensures
            out@ == self.bytes(),
            self.wf() ==> out@.len() == self.size(),
    {
        let mut out: Vec<u8> = Vec::new();
        self.reply_to.write(&mut out);
        let nw = self.nw.to_bytes();
        append_bytes(&mut out, nw.as_slice());
        proof {
            lemma_reply_to_size(self.reply_to, 0);
            assert(out@ =~= self.bytes());
        }
        out
    }

    /// Reads a wire form back. This succeeds on exactly the wire forms of
    /// well-formed link packets, and gives the one packet that is written so.
    pub fn from_bytes(bytes: &[u8]) -> (out: Option<LinkPacket>)
        ensures
            out is Some <==> LinkPacket::readable(bytes@),
            out matches Some(lp) ==> lp.wf() && lp.bytes() == bytes@,
            forall|lp: LinkPacket| lp.wf() && lp.bytes() == bytes@ ==> out == Some(lp),
    {
        let out = match ReplyTo::read(bytes) {
            None => None,
            Some(reply_to) => {
                let at: usize = match reply_to {
                    ReplyTo::UdpIp { .. } => 7,
                    ReplyTo::UdpIp6 { .. } => 19,
                    ReplyTo::Rf(_) => 5,
                    ReplyTo::Mpsc => 1,
                };
                let rest = slice_subrange(bytes, at, bytes.len());
                assert(rest@ =~= bytes@.skip(at as int));
                match NarrowWaistPacket::from_bytes(rest) {
                    None => None,
                    Some(nw) => {
                        let lp = LinkPacket { reply_to, nw };
                        assert(lp.bytes() =~= bytes@);
                        Some(lp)
                    },
                }
            },
        };
        proof {
            assert forall|lp: LinkPacket| lp.wf() && lp.bytes() == bytes@ implies out == Some(
                lp,
            ) by {
                lemma_link_packet_readable(lp);
                assert(out is Some);
                lemma_link_packet_bytes_injective(out->0, lp);
            }
        }
        out
    }

    /// Writes the frame that `link_id` sends for this packet under the given
    /// nonce.
    pub fn as_bytes_with_nonce(&self, link_id: &LinkId, nonce: LinkNonce) -> (out: Vec<u8>)
        ensures
            out@ == self.frame(*link_id, nonce@),
            self.wf() ==> out@.len() == FRAME_HEAD_SIZE + self.size() + (
            if link_id.remote_link_pid is Some {
                SEAL_OVERHEAD as nat
            } else {
                0
            }),
            identity_public(link_id.link_sid@).len() == 64,
            link_id.remote_link_pid matches Some(pid) ==> seal_sized(
                *self,
                link_id.link_sid@,
                pid@,
                nonce@,
            ),
    {
        let own = link_id.link_sid.public_id();
        let plain = self.to_bytes();
        let mut out: Vec<u8> = Vec::new();
        match &link_id.remote_link_pid {
            None => {
                out.push(0u8);
                append_bytes(&mut out, own.bytes.as_slice());
                append_bytes(&mut out, plain.as_slice());
                assert(out@ =~= self.frame(*link_id, nonce@));
            },
            Some(pid) => {
                let key = link_id.link_sid.shared_secret(pid);
                let wide = widen_nonce(&nonce);
                let (sealed, tag) = aead_seal(&key, &wide, plain.as_slice());
                out.push(1u8);
                append_bytes(&mut out, own.bytes.as_slice());
                append_bytes(&mut out, nonce.as_slice());
                append_bytes(&mut out, sealed.as_slice());
                append_bytes(&mut out, tag.as_slice());
                assert(out@ =~= self.frame(*link_id, nonce@));
            },
        }
        out
    }

    /// As `as_bytes_with_nonce`, under a fresh random nonce.
    pub fn as_bytes(&self, link_id: &LinkId) -> (out: Vec<u8>)
        ensures
            exists|nonce: Seq<u8>|
                out@ == #[trigger] self.frame(*link_id, nonce) && (link_id.remote_link_pid matches Some(
                    pid,
                ) ==> seal_sized(*self, link_id.link_sid@, pid@, nonce)),
            self.wf() ==> out@.len() == FRAME_HEAD_SIZE + self.size() + (
            if link_id.remote_link_pid is Some {
                SEAL_OVERHEAD as nat
            } else {
                0
            }),
            identity_public(link_id.link_sid@).len() == 64,
    {
        let nonce = random_link_nonce();
        let out = self.as_bytes_with_nonce(link_id, nonce);
        assert(out@ == self.frame(*link_id, nonce@));
        out
    }

    /// Reads a frame as the link `link_id` receives it: the sender's public
    /// identity and the link packet.
    ///
    /// A frame in the clear is read as it stands. A sealed frame is opened
    /// under the secret that this end shares with the sender the frame names;
    /// where the tag does not match, the frame is refused with
    /// `AuthenticationFailed`. What is no frame, or holds no link packet, is
    /// `MalformedPacket`. A frame that any link wrote in the clear, or sealed
    /// for this end, reads back as the packet that was written, with its
    /// sender.
    pub fn from_frame(bytes: &[u8], link_id: &LinkId) -> (out: Result<
        (PublicIdentity, LinkPacket),
        PacketError,
    >)
        ensures
            out is Ok <==> frame_readable(bytes@, link_id.link_sid@),
            out matches Ok((pid, lp)) ==> {
                &&& lp.wf()
                &&& pid@ == bytes@.subrange(1, FRAME_HEAD_SIZE as int)
                &&& lp.bytes() == frame_payload(bytes@, link_id.link_sid@)
            },
            out matches Err(e) ==> e == (if sealed_shape(bytes@) && opened_frame(
                bytes@,
                link_id.link_sid@,
            ) is None {
                PacketError::AuthenticationFailed
            } else {
                PacketError::MalformedPacket
            }),
            forall|sender: Seq<u8>, lp: LinkPacket|
                lp.wf() && bytes@ == #[trigger] lp.clear_frame(sender) && identity_public(
                    sender,
                ).len() == 64 ==> (out matches Ok((pid, got)) && pid@ == identity_public(sender)
                    && got == lp),
            forall|sender: Seq<u8>, nonce: Seq<u8>, lp: LinkPacket|
                lp.wf() && sender.len() == 32 && bytes@ == #[trigger] lp.sealed_frame(
                    sender,
                    identity_public(link_id.link_sid@),
                    nonce,
                ) && seal_sized(lp, sender, identity_public(link_id.link_sid@), nonce)
                    ==> (out matches Ok((pid, got)) && pid@ == identity_public(sender) && got
                    == lp),
    {
        let n = bytes.len();
        if n < FRAME_HEAD_SIZE {
            proof {
                lemma_not_clear(bytes@);
                lemma_not_sealed(bytes@, identity_public(link_id.link_sid@));
            }
            return Err(PacketError::MalformedPacket);
        }
        let shape = bytes[0];
        let sender = PublicIdentity { bytes: take_array::<64>(bytes, 1) };
        if shape == 0 {
            let rest = slice_subrange(bytes, FRAME_HEAD_SIZE, n);
            assert(rest@ =~= bytes@.skip(FRAME_HEAD_SIZE as int));
            let read = LinkPacket::from_bytes(rest);
            proof {
                lemma_not_sealed(bytes@, identity_public(link_id.link_sid@));
                assert forall|tx: Seq<u8>, lp: LinkPacket|
                    lp.wf() && bytes@ == #[trigger] lp.clear_frame(tx) && identity_public(tx).len()
                        == 64 implies sender@ == identity_public(tx) && read == Some(lp) by {
                    assert(bytes@.skip(FRAME_HEAD_SIZE as int) =~= lp.bytes());
                    assert(bytes@.subrange(1, FRAME_HEAD_SIZE as int) =~= identity_public(tx));
                }
            }
            match read {
                None => Err(PacketError::MalformedPacket),
                Some(got) => Ok((sender, got)),
            }
        } else if shape == 1 && n >= FRAME_HEAD_SIZE + SEAL_OVERHEAD {
            let nonce = take_array::<8>(bytes, FRAME_HEAD_SIZE);
            let tag = take_array::<16>(bytes, n - 16);
            let sealed = slice_subrange(bytes, FRAME_HEAD_SIZE + 8, n - 16);
            let key = link_id.link_sid.shared_secret(&sender);
            let wide = widen_nonce(&nonce);
            let opened = aead_open(&key, &wide, sealed, &tag);
            proof {
                lemma_not_clear(bytes@);
                assert forall|tx: Seq<u8>, salt: Seq<u8>, lp: LinkPacket|
                    lp.wf() && tx.len() == 32 && bytes@ == #[trigger] lp.sealed_frame(
                        tx,
                        identity_public(link_id.link_sid@),
                        salt,
                    ) && seal_sized(
                        lp,
                        tx,
                        identity_public(link_id.link_sid@),
                        salt,
                    ) implies sender@ == identity_public(tx) && opened is Some && opened->0@
                    == lp.bytes() by {
                    lemma_sealed_frame_parts(lp, tx, identity_public(link_id.link_sid@), salt);
                    let s = aead_sealed(
                        identity_exchange(tx, identity_public(link_id.link_sid@)),
                        cipher_nonce(salt),
                        lp.bytes(),
                    );
                    assert(sender@ =~= identity_public(tx));
                    assert(nonce@ =~= salt);
                    assert(sealed@ =~= s.0);
                    assert(tag@ =~= s.1);
                    assert(key@ == identity_exchange(tx, identity_public(link_id.link_sid@)));
                }
            }
            match opened {
                None => Err(PacketError::AuthenticationFailed),
                Some(plain) => {
                    match LinkPacket::from_bytes(plain.as_slice()) {
                        None => Err(PacketError::MalformedPacket),
                        Some(got) => Ok((sender, got)),
                    }
                },
            }
        } else {
            proof {
                lemma_not_clear(bytes@);
                lemma_not_sealed(bytes@, identity_public(link_id.link_sid@));
            }
            Err(PacketError::MalformedPacket)
        }
    }
}

/// Whether `bytes` has the tag and the length of a frame in the clear.
pub open spec fn clear_shape(bytes: Seq<u8>) -> bool {
    bytes.len() >= FRAME_HEAD_SIZE && bytes[0] == 0
}

/// Whether `bytes` has the tag and the length of a sealed frame.
pub open spec fn sealed_shape(bytes: Seq<u8>) -> bool {
    bytes.len() >= FRAME_HEAD_SIZE + SEAL_OVERHEAD && bytes[0] == 1
}

/// What opening the sealed frame `bytes` gives the holder of the seed
/// `receiver`, under the secret shared with the sender that the frame names.
pub open spec fn opened_frame(bytes: Seq<u8>, receiver: Seq<u8>) -> Option<Seq<u8>> {
    aead_opened(
        identity_exchange(receiver, bytes.subrange(1, FRAME_HEAD_SIZE as int)),
        cipher_nonce(bytes.subrange(FRAME_HEAD_SIZE as int, FRAME_HEAD_SIZE + 8)),
        bytes.subrange(FRAME_HEAD_SIZE + 8, bytes.len() - 16),
        bytes.subrange(bytes.len() - 16, bytes.len() as int),
    )
}

/// The bytes of the link packet that the frame carries, as the holder of the
/// seed `receiver` reads them.
pub open spec fn frame_payload(bytes: Seq<u8>, receiver: Seq<u8>) -> Seq<u8> {
    if bytes[0] == 0 {
        bytes.skip(FRAME_HEAD_SIZE as int)
    } else {
        opened_frame(bytes, receiver)->0
    }
}

/// Whether the holder of the seed `receiver` can read a link packet out of
/// the frame `bytes`.
pub open spec fn frame_readable(bytes: Seq<u8>, receiver: Seq<u8>) -> bool {
    ||| clear_shape(bytes) && LinkPacket::readable(bytes.skip(FRAME_HEAD_SIZE as int))
    ||| sealed_shape(bytes) && opened_frame(bytes, receiver) is Some && LinkPacket::readable(
        opened_frame(bytes, receiver)->0,
    )
}

/// Whether the parts of the sealed frame have the lengths that the
/// primitives give them: 64 bytes of public identity, 16 bytes of tag. This
/// holds of every frame that `as_bytes_with_nonce` writes.
pub open spec fn seal_sized(lp: LinkPacket, sender: Seq<u8>, receiver: Seq<u8>, nonce: Seq<u8>) -> bool {
    &&& nonce.len() == 8
    &&& identity_public(sender).len() == 64
    &&& aead_sealed(identity_exchange(sender, receiver), cipher_nonce(nonce), lp.bytes()).1.len()
        == 16
}

proof fn lemma_not_clear(bytes: Seq<u8>)
    requires
        bytes.len() < FRAME_HEAD_SIZE || bytes[0] != 0,
    ensures
        forall|sender: Seq<u8>, lp: LinkPacket|
            lp.wf() && bytes == #[trigger] lp.clear_frame(sender) && identity_public(sender).len()
                == 64 ==> false,
{
    assert forall|sender: Seq<u8>, lp: LinkPacket|
        lp.wf() && bytes == #[trigger] lp.clear_frame(sender) && identity_public(sender).len()
            == 64 implies false by {
        assert(lp.clear_frame(sender)[0] == 0);
        assert(lp.clear_frame(sender).len() >= 65);
    }
}

proof fn lemma_not_sealed(bytes: Seq<u8>, receiver: Seq<u8>)
    requires
        bytes.len() < FRAME_HEAD_SIZE + SEAL_OVERHEAD || bytes[0] != 1,
    ensures
        forall|sender: Seq<u8>, nonce: Seq<u8>, lp: LinkPacket|
            lp.wf() && sender.len() == 32 && bytes == #[trigger] lp.sealed_frame(
                sender,
                receiver,
                nonce,
            ) && seal_sized(lp, sender, receiver, nonce) ==> false,
{
    assert forall|sender: Seq<u8>, nonce: Seq<u8>, lp: LinkPacket|
        lp.wf() && sender.len() == 32 && bytes == #[trigger] lp.sealed_frame(
            sender,
            receiver,
            nonce,
        ) && seal_sized(lp, sender, receiver, nonce) implies false by {
        lemma_sealed_frame_parts(lp, sender, receiver, nonce);
    }
}

/// Where the parts of a sealed frame stand in it.
proof fn lemma_sealed_frame_parts(lp: LinkPacket, sender: Seq<u8>, receiver: Seq<u8>, nonce: Seq<u8>)
    requires
        seal_sized(lp, sender, receiver, nonce),
    ensures
        ({
            let f = lp.sealed_frame(sender, receiver, nonce);
            let s = aead_sealed(identity_exchange(sender, receiver), cipher_nonce(nonce), lp.bytes());
            &&& f[0] == 1
            &&& f.len() == FRAME_HEAD_SIZE + SEAL_OVERHEAD + s.0.len()
            &&& f.subrange(1, FRAME_HEAD_SIZE as int) == identity_public(sender)
            &&& f.subrange(FRAME_HEAD_SIZE as int, FRAME_HEAD_SIZE + 8) == nonce
            &&& f.subrange(FRAME_HEAD_SIZE + 8, f.len() - 16) == s.0
            &&& f.subrange(f.len() - 16, f.len() as int) == s.1
        }),
{
    let f = lp.sealed_frame(sender, receiver, nonce);
    let s = aead_sealed(identity_exchange(sender, receiver), cipher_nonce(nonce), lp.bytes());
    assert(f.subrange(1, FRAME_HEAD_SIZE as int) =~= identity_public(sender));
    assert(f.subrange(FRAME_HEAD_SIZE as int, FRAME_HEAD_SIZE + 8) =~= nonce);
    assert(f.subrange(FRAME_HEAD_SIZE + 8, f.len() - 16) =~= s.0);
    assert(f.subrange(f.len() - 16, f.len() as int) =~= s.1);
}

/// The wire form of a well-formed link packet is readable.
pub proof fn lemma_link_packet_readable(lp: LinkPacket)
    requires
        lp.wf(),
    ensures
        LinkPacket::readable(lp.bytes()),
        lp.bytes().len() == lp.size(),
{
    lemma_narrow_waist_size(lp.nw);
    lemma_reply_to_size(lp.reply_to, lp.nw.size());
    lemma_narrow_waist_readable(lp.nw);
    let r = lp.reply_to.bytes();
    assert(lp.bytes()[0] == r[0]);
    assert(lp.bytes().skip(r.len() as int) =~= lp.nw.bytes());
}

/// Two well-formed link packets with the same wire form are the same packet.
pub proof fn lemma_link_packet_bytes_injective(a: LinkPacket, b: LinkPacket)
    requires
        a.wf(),
        b.wf(),
        a.bytes() == b.bytes(),
    ensures
        a == b,
{
    lemma_narrow_waist_size(a.nw);
    lemma_narrow_waist_size(b.nw);
    lemma_reply_to_size(a.reply_to, a.nw.size());
    lemma_reply_to_size(b.reply_to, b.nw.size());
    assert(a.bytes()[0] == a.reply_to.bytes()[0]);
    assert(b.bytes()[0] == b.reply_to.bytes()[0]);
    assert(a.bytes().len() == a.reply_to.size() + a.nw.size());
    assert(b.bytes().len() == b.reply_to.size() + b.nw.size());
    assert(a.reply_to.size() == b.reply_to.size());
    lemma_concat_split(a.reply_to.bytes(), a.nw.bytes(), b.reply_to.bytes(), b.nw.bytes());
    lemma_reply_to_bytes_injective(a.reply_to, b.reply_to);
    lemma_narrow_waist_bytes_injective(a.nw, b.nw);
}

impl LinkId {
    /// The link filed under `lookup_id`.
    pub fn new(
        lookup_id: u32,
        link_sid: PrivateIdentity,
        remote_link_pid: Option<PublicIdentity>,
        reply_to: ReplyTo,
    ) -> (id: LinkId)
        ensures
            id == (LinkId { lookup_id, link_sid, remote_link_pid, reply_to }),
    {
        LinkId { lookup_id, link_sid, remote_link_pid, reply_to }
    }

    /// A link filed under a random number.
    pub fn listen(
        link_sid: PrivateIdentity,
        remote_link_pid: Option<PublicIdentity>,
        reply_to: ReplyTo,
    ) -> (id: LinkId)
        ensures
            id.link_sid == link_sid,
            id.remote_link_pid == remote_link_pid,
            id.reply_to == reply_to,
    {
        LinkId { lookup_id: random_number(), link_sid, remote_link_pid, reply_to }
    }

    pub fn lookup_id(&self) -> (id: u32)
        ensures
            id == self.lookup_id,
    {
        self.lookup_id
    }

    pub fn reply_to(&self) -> (r: ReplyTo)
        ensures
            r == self.reply_to,
    {
        self.reply_to
    }

    /// The public identity of this end of the link.
    pub fn link_pid(&self) -> (pid: PublicIdentity)
        ensures
            pid@ == identity_public(self.link_sid@),
    {
        self.link_sid.public_id()
    }

    /// The same link, now knowing the other end.
    pub fn remote(&self, remote_link_pid: PublicIdentity) -> (id: LinkId)
        ensures
            id == (LinkId { remote_link_pid: Some(remote_link_pid), ..*self }),
    {
        LinkId { remote_link_pid: Some(remote_link_pid), ..*self }
    }
}

impl InterLinkPacket {
    pub fn new(link_id: LinkId, lp: LinkPacket) -> (ilp: InterLinkPacket)
        ensures
            ilp == (InterLinkPacket { link_id, lp }),
    {
        InterLinkPacket { link_id, lp }
    }

    pub fn link_id(&self) -> (id: LinkId)
        ensures
            id == self.link_id,
    {
        self.link_id
    }

    pub fn link_packet(&self) -> (lp: LinkPacket)
        ensures
            lp == self.lp,
    {
        self.lp
    }

    pub fn narrow_waist(&self) -> (nw: NarrowWaistPacket)
        ensures
            nw == self.lp.nw,
    {
        self.lp.nw
    }

    /// The same packet, now bound for `link_id`.
    pub fn change_destination(&self, link_id: LinkId) -> (ilp: InterLinkPacket)
        ensures
            ilp == (InterLinkPacket { link_id, lp: self.lp }),
    {
        InterLinkPacket { link_id, lp: self.lp }
    }
}

} // verus!
