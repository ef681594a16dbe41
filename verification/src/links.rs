//! The link transport's codec: link packets framed for the wire under
//! Reed-Solomon forward error correction.
//!
//! A frame is cut into chunks of 249 bytes; each chunk travels as a shard of
//! up to 255 bytes, the chunk followed by six parity bytes, which lets the
//! receiver repair up to three wrong bytes per shard.

use crate::error::PacketError;
use crate::identity::{identity_public, LinkNonce, PublicIdentity};
use crate::link::{
    frame_payload, frame_readable, opened_frame, seal_sized, sealed_shape, LinkId, LinkPacket,
    FRAME_HEAD_SIZE, SEAL_OVERHEAD,
};
use crate::octets::append_bytes;
use vstd::prelude::*;
use vstd::slice::slice_subrange;

verus! {

/// Parity bytes of one shard.
pub const PARITY_LEN: usize = 6;

/// Payload bytes of a full shard.
pub const CHUNK_LEN: usize = 249;

/// Bytes of a full shard.
pub const SHARD_LEN: usize = 255;

/// Wrong bytes per shard that the receiver can repair.
pub const MAX_ERRORS: usize = 3;

/// Largest datagram that a link carries.
pub const MTU: usize = 1472;

/// Largest frame whose shards fit the MTU.
pub const MAX_FRAME: usize = 1436;

/// The six parity bytes that `reed_solomon` appends to `data`.
pub uninterp spec fn rs_parity(data: Seq<u8>) -> Seq<u8>;

/// What `reed_solomon` recovers from a shard: its payload, or nothing where
/// the shard is damaged beyond repair.
pub uninterp spec fn rs_corrected(shard: Seq<u8>) -> Option<Seq<u8>>;

/// Number of positions in which two byte strings of one length differ.
pub open spec fn mismatches(a: Seq<u8>, b: Seq<u8>) -> nat
    decreases a.len(),
{
    if a.len() == 0 || b.len() == 0 {
        0
    } else {
        mismatches(a.drop_last(), b.drop_last()) + if a.last() != b.last() {
            1nat
        } else {
            0nat
        }
    }
}

/// A byte string differs from itself nowhere.
pub proof fn lemma_no_mismatch(a: Seq<u8>)
    ensures
        mismatches(a, a) == 0,
    decreases a.len(),
{
    if a.len() > 0 {
        lemma_no_mismatch(a.drop_last());
    }
}

/// Calls `reed_solomon::Encoder::encode` with `parity` parity bytes. The encoder
/// is systematic: what comes back is the chunk itself, then the parity bytes,
/// which the contract names.
#[verifier::external_body]
fn rs_encode(chunk: &[u8], parity: usize) -> (out: Vec<u8>)
    requires
        1 <= chunk@.len() <= CHUNK_LEN,
        parity == PARITY_LEN,
    ensures
        out@ == chunk@ + rs_parity(chunk@),
        out@.len() == chunk@.len() + PARITY_LEN,
{
    let encoder = reed_solomon::Encoder::new(parity);
    let encoded = encoder.encode(chunk);
    encoded.to_vec()
}

/// Calls `reed_solomon::Decoder::correct` with `parity` parity bytes and no
/// known erasures, and hands out the payload of the repaired shard. Besides
/// naming the result, the contract states the code's correcting power, which
/// is what the crate is for: a shard that differs in at most three bytes from
/// what the encoder wrote for some payload is repaired to that payload. It
/// also states what the decoder checks before it hands a shard out: it
/// changes at most three bytes, and what it hands out is a word of the code,
/// the payload with the parity bytes that the encoder writes for it.
#[verifier::external_body]
fn rs_correct(shard: &[u8], parity: usize) -> (out: Option<Vec<u8>>)
    requires
        PARITY_LEN <= shard@.len() <= SHARD_LEN,
        parity == PARITY_LEN,
    ensures
        out is Some == rs_corrected(shard@) is Some,
        out is Some ==> out->0@ == rs_corrected(shard@)->0,
        out is Some ==> out->0@.len() + PARITY_LEN == shard@.len(),
        forall|data: Seq<u8>|
            data.len() + PARITY_LEN == shard@.len() && mismatches(
                shard@,
                data + #[trigger] rs_parity(data),
            ) <= MAX_ERRORS && rs_parity(data).len() == PARITY_LEN ==> out is Some && out->0@
                == data,
        out is Some && out->0@.len() >= 1 ==> rs_parity(out->0@).len() == PARITY_LEN && mismatches(
            shard@,
            out->0@ + rs_parity(out->0@),
        ) <= MAX_ERRORS,
{
    let decoder = reed_solomon::Decoder::new(parity);
    match decoder.correct(shard, None) {
        Ok(buffer) => Some(buffer.data().to_vec()),
        Err(_) => None,
    }
}

/// The length of the first chunk of `raw`.
pub open spec fn chunk_len(raw: Seq<u8>) -> int {
    if raw.len() <= CHUNK_LEN {
        raw.len() as int
    } else {
        CHUNK_LEN as int
    }
}

/// The length of the first shard of `msg`.
pub open spec fn shard_len(msg: Seq<u8>) -> int {
    if msg.len() <= SHARD_LEN {
        msg.len() as int
    } else {
        SHARD_LEN as int
    }
}

/// The shards of a frame, one after the other.
pub open spec fn fec_frame(raw: Seq<u8>) -> Seq<u8>
    decreases raw.len(),
{
    if raw.len() == 0 {
        Seq::empty()
    } else {
        let chunk = raw.take(chunk_len(raw));
        chunk + rs_parity(chunk) + fec_frame(raw.skip(chunk_len(raw)))
    }
}

/// The frame that the shards of `msg` repair to, or nothing where a shard
/// is too short to hold a payload or is damaged beyond repair.
pub open spec fn fec_unframe(msg: Seq<u8>) -> Option<Seq<u8>>
    decreases msg.len(),
{
    if msg.len() == 0 {
        Some(Seq::empty())
    } else {
        let shard = msg.take(shard_len(msg));
        if shard.len() <= PARITY_LEN {
            None
        } else {
            match (rs_corrected(shard), fec_unframe(msg.skip(shard_len(msg)))) {
                (Some(chunk), Some(rest)) => Some(chunk + rest),
                _ => None,
            }
        }
    }
}

/// Whether `msg` is what the encoder writes for `raw`, but for at most
/// `budget` wrong bytes in each shard.
pub open spec fn near_frame(msg: Seq<u8>, raw: Seq<u8>, budget: nat) -> bool
    decreases raw.len(),
{
    if raw.len() == 0 {
        msg.len() == 0
    } else {
        let chunk = raw.take(chunk_len(raw));
        let word = chunk + rs_parity(chunk);
        &&& rs_parity(chunk).len() == PARITY_LEN
        &&& msg.len() >= word.len()
        &&& mismatches(msg.take(word.len() as int), word) <= budget
        &&& near_frame(msg.skip(word.len() as int), raw.skip(chunk_len(raw)), budget)
    }
}

/// A frame with fewer wrong bytes is also within any larger budget.
pub proof fn lemma_near_frame_widens(msg: Seq<u8>, raw: Seq<u8>, small: nat, large: nat)
    requires
        near_frame(msg, raw, small),
        small <= large,
    ensures
        near_frame(msg, raw, large),
    decreases raw.len(),
{
    if raw.len() > 0 {
        let chunk = raw.take(chunk_len(raw));
        let word = chunk + rs_parity(chunk);
        lemma_near_frame_widens(
            msg.skip(word.len() as int),
            raw.skip(chunk_len(raw)),
            small,
            large,
        );
    }
}

/// The length of what the encoder writes for a frame of `len` bytes.
pub open spec fn framed_len(len: nat) -> nat {
    (len + PARITY_LEN as int * ((len + CHUNK_LEN as int - 1) / (CHUNK_LEN as int))) as nat
}

/// Cuts `raw` into chunks and writes each as a shard with its parity bytes.
///
/// A frame of more than `MAX_FRAME` bytes would not fit the MTU and is
/// refused as malformed; every other frame is encoded, and what is written
/// fits the MTU.
pub fn fec_encode(raw: &[u8]) -> (out: Result<Vec<u8>, PacketError>)
    ensures
        raw@.len() > MAX_FRAME ==> out == Err::<Vec<u8>, PacketError>(PacketError::MalformedPacket),
        raw@.len() <= MAX_FRAME ==> out is Ok,
        out matches Ok(bytes) ==> {
            &&& bytes@ == fec_frame(raw@)
            &&& near_frame(bytes@, raw@, 0)
            &&& bytes@.len() == framed_len(raw@.len())
            &&& bytes@.len() <= MTU
        },
{
    let len = raw.len();
    if len > MAX_FRAME {
        return Err(PacketError::MalformedPacket);
    }
    let mut bytes: Vec<u8> = Vec::new();
    let mut at: usize = 0;
    let ghost mut words: nat = 0;
    proof {
        assert(raw@.skip(0) =~= raw@);
        assert(bytes@ + fec_frame(raw@) =~= fec_frame(raw@));
        assert forall|tail: Seq<u8>| #[trigger] near_frame(tail, raw@.skip(0), 0) implies near_frame(
            bytes@ + tail,
            raw@,
            0,
        ) by {
            assert(bytes@ + tail =~= tail);
        }
    }
    while at < len
        invariant
            at <= len == raw@.len() <= MAX_FRAME,
            at == len || at == words * CHUNK_LEN,
            words * CHUNK_LEN < at + CHUNK_LEN,
            at <= words * CHUNK_LEN,
            bytes@.len() == at + PARITY_LEN * words,
            fec_frame(raw@) == bytes@ + fec_frame(raw@.skip(at as int)),
            forall|tail: Seq<u8>| #[trigger]
                near_frame(tail, raw@.skip(at as int), 0) ==> near_frame(bytes@ + tail, raw@, 0),
        decreases len - at,
    {
        let size: usize = if len - at <= CHUNK_LEN {
            len - at
        } else {
            CHUNK_LEN
        };
        let chunk = slice_subrange(raw, at, at + size);
        let word = rs_encode(chunk, PARITY_LEN);
        let ghost before = bytes@;
        let ghost rest = raw@.skip(at as int);
        append_bytes(&mut bytes, word.as_slice());
        proof {
            assert(chunk@ =~= rest.take(chunk_len(rest)));
            assert(rest.skip(chunk_len(rest)) =~= raw@.skip(at + size));
            assert(bytes@ + fec_frame(raw@.skip(at + size)) =~= before + fec_frame(rest));
            assert forall|tail: Seq<u8>| #[trigger]
                near_frame(tail, raw@.skip(at + size), 0) implies near_frame(
                bytes@ + tail,
                raw@,
                0,
            ) by {
                let joined = word@ + tail;
                assert(joined.take(word@.len() as int) =~= word@);
                assert(joined.skip(word@.len() as int) =~= tail);
                lemma_no_mismatch(word@);
                assert(near_frame(joined, rest, 0));
                assert(bytes@ + tail =~= before + joined);
            }
            words = words + 1;
        }
        at += size;
    }
    proof {
        assert(raw@.skip(len as int) =~= Seq::<u8>::empty());
        assert(near_frame(Seq::<u8>::empty(), raw@.skip(len as int), 0));
        assert(bytes@ + Seq::<u8>::empty() =~= bytes@);
        assert(bytes@ + fec_frame(raw@.skip(len as int)) =~= bytes@);
        assert(words == (len + CHUNK_LEN - 1) / (CHUNK_LEN as int));
    }
    Ok(bytes)
}

/// Cuts `msg` into shards, repairs each and joins their payloads.
///
/// A shard that is too short to hold a payload, or that is damaged beyond
/// repair, makes the whole message `PacketCorrupt`. A message that is, shard
/// by shard, within three wrong bytes of what the encoder wrote for a frame
/// is repaired to that frame.
pub fn fec_decode(msg: &[u8]) -> (out: Result<Vec<u8>, PacketError>)
    ensures
        match out {
            Ok(raw) => fec_unframe(msg@) == Some(raw@),
            Err(e) => e == PacketError::PacketCorrupt && fec_unframe(msg@) is None,
        },
        forall|raw: Seq<u8>| #[trigger]
            near_frame(msg@, raw, MAX_ERRORS as nat) ==> (out matches Ok(got) && got@ == raw),
        out matches Ok(raw) ==> near_frame(msg@, raw@, MAX_ERRORS as nat),
{
    let len = msg.len();
    let mut raw: Vec<u8> = Vec::new();
    let mut at: usize = 0;
    let ghost mut full: nat = 0;
    proof {
        assert(msg@.take(0) =~= Seq::<u8>::empty());
        assert(msg@.skip(0) =~= msg@);
        match fec_unframe(msg@) {
            Some(rest) => {
                assert(raw@ + rest =~= rest);
            },
            None => {},
        }
        assert forall|whole: Seq<u8>| #[trigger]
            near_frame(msg@, whole, MAX_ERRORS as nat) implies whole.take(0) == raw@ && near_frame(
            msg@.skip(0),
            whole.skip(0),
            MAX_ERRORS as nat,
        ) by {
            assert(whole.take(0) =~= raw@);
            assert(whole.skip(0) =~= whole);
        }
    }
    while at < len
        invariant
            at <= len == msg@.len(),
            near_frame(msg@.take(at as int), raw@, MAX_ERRORS as nat),
            at < len ==> at == SHARD_LEN * full && raw@.len() == CHUNK_LEN * full,
            fec_unframe(msg@) == (match fec_unframe(msg@.skip(at as int)) {
                Some(rest) => Some(raw@ + rest),
                None => None,
            }),
            forall|whole: Seq<u8>| #[trigger]
                near_frame(msg@, whole, MAX_ERRORS as nat) ==> {
                    &&& raw@.len() <= whole.len()
                    &&& whole.take(raw@.len() as int) == raw@
                    &&& near_frame(
                        msg@.skip(at as int),
                        whole.skip(raw@.len() as int),
                        MAX_ERRORS as nat,
                    )
                },
        decreases len - at,
    {
        let size: usize = if len - at <= SHARD_LEN {
            len - at
        } else {
            SHARD_LEN
        };
        let shard = slice_subrange(msg, at, at + size);
        let ghost rest = msg@.skip(at as int);
        proof {
            assert(shard@ =~= rest.take(shard_len(rest)));
            assert(rest.skip(shard_len(rest)) =~= msg@.skip(at + size));
        }
        if size <= PARITY_LEN {
            proof {
                assert forall|whole: Seq<u8>| #[trigger]
                    near_frame(msg@, whole, MAX_ERRORS as nat) implies false by {
                    let left = whole.skip(raw@.len() as int);
                    assert(near_frame(rest, left, MAX_ERRORS as nat));
                }
            }
            return Err(PacketError::PacketCorrupt);
        }
        let ghost before = raw@;
        match rs_correct(shard, PARITY_LEN) {
            None => {
                proof {
                    assert forall|whole: Seq<u8>| #[trigger]
                        near_frame(msg@, whole, MAX_ERRORS as nat) implies false by {
                        lemma_first_shard(rest, whole.skip(before.len() as int));
                    }
                }
                return Err(PacketError::PacketCorrupt);
            },
            Some(chunk) => {
                append_bytes(&mut raw, chunk.as_slice());
                proof {
                    lemma_near_frame_grows(
                        msg@.take(at as int),
                        before,
                        shard@,
                        chunk@,
                        full,
                        MAX_ERRORS as nat,
                    );
                    assert(msg@.take(at as int) + shard@ =~= msg@.take(at + size));
                    full = full + 1;
                    assert forall|whole: Seq<u8>| #[trigger]
                        near_frame(msg@, whole, MAX_ERRORS as nat) implies {
                        &&& raw@.len() <= whole.len()
                        &&& whole.take(raw@.len() as int) == raw@
                        &&& near_frame(
                            msg@.skip(at + size),
                            whole.skip(raw@.len() as int),
                            MAX_ERRORS as nat,
                        )
                    } by {
                        let left = whole.skip(before.len() as int);
                        lemma_first_shard(rest, left);
                        assert(chunk@ == left.take(chunk_len(left)));
                        assert(whole.take(raw@.len() as int) =~= before + chunk@);
                        assert(left.skip(chunk_len(left)) =~= whole.skip(raw@.len() as int));
                    }
                    match fec_unframe(msg@.skip(at + size)) {
                        Some(tail) => {
                            assert(before + (chunk@ + tail) =~= raw@ + tail);
                        },
                        None => {},
                    }
                }
            },
        }
        at += size;
    }
    proof {
        assert(msg@.take(len as int) =~= msg@);
        assert(msg@.skip(len as int) =~= Seq::<u8>::empty());
        assert(raw@ + Seq::<u8>::empty() =~= raw@);
        assert forall|whole: Seq<u8>| #[trigger]
            near_frame(msg@, whole, MAX_ERRORS as nat) implies raw@ == whole by {
            let left = whole.skip(raw@.len() as int);
            assert(near_frame(Seq::<u8>::empty(), left, MAX_ERRORS as nat));
            if left.len() > 0 {
                assert(false);
            }
            assert(whole.take(raw@.len() as int) =~= whole);
        }
    }
    Ok(raw)
}

/// Where `msg` is near what the encoder wrote for `raw`, which is `full`
/// whole chunks, and `shard` is near the word of one more chunk, `msg` with
/// the shard is near what the encoder writes for `raw` with the chunk.
proof fn lemma_near_frame_grows(
    msg: Seq<u8>,
    raw: Seq<u8>,
    shard: Seq<u8>,
    chunk: Seq<u8>,
    full: nat,
    budget: nat,
)
    requires
        near_frame(msg, raw, budget),
        msg.len() == SHARD_LEN * full,
        raw.len() == CHUNK_LEN * full,
        1 <= chunk.len() <= CHUNK_LEN,
        shard.len() == chunk.len() + PARITY_LEN,
        rs_parity(chunk).len() == PARITY_LEN,
        mismatches(shard, chunk + rs_parity(chunk)) <= budget,
    ensures
        near_frame(msg + shard, raw + chunk, budget),
    decreases full,
{
    let word = chunk + rs_parity(chunk);
    if full == 0 {
        assert(msg + shard =~= shard);
        assert(raw + chunk =~= chunk);
        assert(chunk.take(chunk_len(chunk)) =~= chunk);
        assert(shard.take(word.len() as int) =~= shard);
        assert(chunk.skip(chunk_len(chunk)).len() == 0);
        assert(shard.skip(word.len() as int).len() == 0);
        assert(near_frame(shard.skip(word.len() as int), chunk.skip(chunk_len(chunk)), budget));
    } else {
        let first = raw.take(chunk_len(raw));
        let head = first + rs_parity(first);
        assert(raw.len() >= CHUNK_LEN) by (nonlinear_arith)
            requires
                raw.len() == CHUNK_LEN * full,
                full >= 1,
        ;
        assert(msg.len() >= SHARD_LEN) by (nonlinear_arith)
            requires
                msg.len() == SHARD_LEN * full,
                full >= 1,
        ;
        assert(chunk_len(raw) == CHUNK_LEN);
        assert(head.len() == SHARD_LEN);
        let whole = raw + chunk;
        assert(chunk_len(whole) == CHUNK_LEN);
        assert(whole.take(chunk_len(whole)) =~= first);
        assert((msg + shard).take(head.len() as int) =~= msg.take(head.len() as int));
        assert((msg + shard).skip(head.len() as int) =~= msg.skip(head.len() as int) + shard);
        assert(whole.skip(chunk_len(whole)) =~= raw.skip(chunk_len(raw)) + chunk);
        assert(msg.skip(head.len() as int).len() == SHARD_LEN * ((full - 1) as nat))
            by (nonlinear_arith)
            requires
                msg.skip(head.len() as int).len() == msg.len() - SHARD_LEN,
                msg.len() == SHARD_LEN * full,
                full >= 1,
        ;
        assert(raw.skip(chunk_len(raw)).len() == CHUNK_LEN * ((full - 1) as nat))
            by (nonlinear_arith)
            requires
                raw.skip(chunk_len(raw)).len() == raw.len() - CHUNK_LEN,
                raw.len() == CHUNK_LEN * full,
                full >= 1,
        ;
        lemma_near_frame_grows(
            msg.skip(head.len() as int),
            raw.skip(chunk_len(raw)),
            shard,
            chunk,
            (full - 1) as nat,
            budget,
        );
    }
}

/// Where `msg` is near what the encoder wrote for a frame that is not
/// empty, the first shard of `msg` is near the first word of that frame, and
/// the rest of `msg` is near what the encoder wrote for the rest.
proof fn lemma_first_shard(msg: Seq<u8>, raw: Seq<u8>)
    requires
        near_frame(msg, raw, MAX_ERRORS as nat),
        msg.len() > 0,
    ensures
        raw.len() > 0,
        ({
            let chunk = raw.take(chunk_len(raw));
            let shard = msg.take(shard_len(msg));
            &&& rs_parity(chunk).len() == PARITY_LEN
            &&& shard.len() == chunk.len() + PARITY_LEN
            &&& mismatches(shard, chunk + rs_parity(chunk)) <= MAX_ERRORS
            &&& near_frame(msg.skip(shard_len(msg)), raw.skip(chunk_len(raw)), MAX_ERRORS as nat)
        }),
{
    let chunk = raw.take(chunk_len(raw));
    let word = chunk + rs_parity(chunk);
    let after = raw.skip(chunk_len(raw));
    if raw.len() > CHUNK_LEN {
        assert(word.len() == SHARD_LEN);
    } else {
        assert(after.len() == 0);
        assert(near_frame(msg.skip(word.len() as int), after, MAX_ERRORS as nat));
        assert(msg.len() == word.len());
        assert(msg.take(word.len() as int) =~= msg);
    }
}

/// Encodes a link packet as `link_id` sends it, under the given nonce: the
/// frame, sealed where the link knows its other end, cut into shards.
///
/// A packet that is not well formed is refused as malformed. Every
/// well-formed packet is encoded, and what is written fits the MTU.
pub fn encode_with_nonce(lp: LinkPacket, link_id: LinkId, nonce: LinkNonce) -> (out: Result<
    Vec<u8>,
    PacketError,
>)
    ensures
        out is Ok <==> lp.wf(),
        out matches Err(e) ==> e == PacketError::MalformedPacket,
        out matches Ok(bytes) ==> {
            &&& bytes@ == fec_frame(lp.frame(link_id, nonce@))
            &&& bytes@.len() == framed_len(lp.frame(link_id, nonce@).len())
            &&& bytes@.len() == framed_len(sent_len(lp, link_id))
            &&& bytes@.len() <= MTU
            &&& near_frame(bytes@, lp.frame(link_id, nonce@), 0)
            &&& frame_sized(lp, link_id, nonce@)
        },
{
    if !lp.nw.is_wf() {
        return Err(PacketError::MalformedPacket);
    }
    let raw = lp.as_bytes_with_nonce(&link_id, nonce);
    proof {
        crate::narrow_waist::lemma_narrow_waist_size(lp.nw);
    }
    fec_encode(raw.as_slice())
}

/// Encodes a link packet as `link_id` sends it, under a fresh random nonce.
pub fn encode(lp: LinkPacket, link_id: LinkId) -> (out: Result<Vec<u8>, PacketError>)
    ensures
        out is Ok <==> lp.wf(),
        out matches Err(e) ==> e == PacketError::MalformedPacket,
        out matches Ok(bytes) ==> bytes@.len() <= MTU && bytes@.len() == framed_len(
            sent_len(lp, link_id),
        ) && exists|nonce: Seq<u8>|
            bytes@ == fec_frame(#[trigger] lp.frame(link_id, nonce)) && near_frame(
                bytes@,
                lp.frame(link_id, nonce),
                0,
            ) && frame_sized(lp, link_id, nonce),
{
    let nonce = crate::identity::random_link_nonce();
    let out = encode_with_nonce(lp, link_id, nonce);
    proof {
        if out is Ok {
            assert(out->Ok_0@ == fec_frame(lp.frame(link_id, nonce@)));
        }
    }
    out
}

/// The length of the frame that `link_id` sends for `lp`: the head, the link
/// packet, and on a sealed link the nonce and the tag.
pub open spec fn sent_len(lp: LinkPacket, link_id: LinkId) -> nat {
    (FRAME_HEAD_SIZE + lp.size() + if link_id.remote_link_pid is Some {
        SEAL_OVERHEAD as nat
    } else {
        0
    }) as nat
}

/// Whether the parts of the frame that `link_id` writes for `lp` under
/// `nonce` have the lengths that the primitives give them. This holds of
/// every frame that `encode` writes.
pub open spec fn frame_sized(lp: LinkPacket, link_id: LinkId, nonce: Seq<u8>) -> bool {
    &&& identity_public(link_id.link_sid@).len() == 64
    &&& link_id.remote_link_pid matches Some(pid) ==> seal_sized(
        lp,
        link_id.link_sid@,
        pid@,
        nonce,
    )
}

/// Whether a frame that `sender` writes can be read by `receiver`: it is in
/// the clear, or sealed for the receiver's identity.
pub open spec fn addressed_to(sender: LinkId, receiver: LinkId) -> bool {
    match sender.remote_link_pid {
        None => true,
        Some(pid) => pid@ == identity_public(receiver.link_sid@),
    }
}

/// Decodes a message as the link `link_id` receives it: repairs the shards,
/// opens the frame and reads the link packet, which comes with the public
/// identity of its sender.
///
/// What `encode` wrote for a well-formed packet, in the clear or sealed for
/// this end, decodes to that packet and its sender, also after up to three
/// bytes of each shard went wrong on the way. A message that decodes lies
/// within three wrong bytes per shard of what the encoder writes for the
/// frame that was read from it.
pub fn decode(msg: Vec<u8>, link_id: LinkId) -> (out: Result<
    (PublicIdentity, LinkPacket),
    PacketError,
>)
    ensures
        out is Ok <==> (fec_unframe(msg@) matches Some(raw) && frame_readable(
            raw,
            link_id.link_sid@,
        )),
        out matches Ok((pid, lp)) ==> {
            &&& lp.wf()
            &&& pid@ == fec_unframe(msg@)->0.subrange(1, FRAME_HEAD_SIZE as int)
            &&& lp.bytes() == frame_payload(fec_unframe(msg@)->0, link_id.link_sid@)
            &&& near_frame(msg@, fec_unframe(msg@)->0, MAX_ERRORS as nat)
        },
        out matches Err(e) ==> e == (match fec_unframe(msg@) {
            None => PacketError::PacketCorrupt,
            Some(raw) => if sealed_shape(raw) && opened_frame(raw, link_id.link_sid@) is None {
                PacketError::AuthenticationFailed
            } else {
                PacketError::MalformedPacket
            },
        }),
        forall|lp: LinkPacket, sender: LinkId, nonce: Seq<u8>|
            lp.wf() && frame_sized(lp, sender, nonce) && addressed_to(sender, link_id)
                && #[trigger] near_frame(msg@, lp.frame(sender, nonce), MAX_ERRORS as nat) ==> (
            out matches Ok((pid, got)) && pid@ == identity_public(sender.link_sid@) && got == lp),
{
    let raw = match fec_decode(msg.as_slice()) {
        Ok(raw) => raw,
        Err(e) => {
            return Err(e);
        },
    };
    let out = LinkPacket::from_frame(raw.as_slice(), &link_id);
    proof {
        assert forall|lp: LinkPacket, sender: LinkId, nonce: Seq<u8>|
            lp.wf() && frame_sized(lp, sender, nonce) && addressed_to(sender, link_id)
                && #[trigger] near_frame(
                msg@,
                lp.frame(sender, nonce),
                MAX_ERRORS as nat,
            ) implies out matches Ok((pid, got)) && pid@ == identity_public(sender.link_sid@)
            && got == lp by {
            assert(raw@ == lp.frame(sender, nonce));
            match sender.remote_link_pid {
                None => {
                    assert(raw@ == lp.clear_frame(sender.link_sid@));
                },
                Some(pid) => {
                    assert(raw@ == lp.sealed_frame(
                        sender.link_sid@,
                        identity_public(link_id.link_sid@),
                        nonce,
                    ));
                },
            }
        }
    }
    out
}

} // verus!
