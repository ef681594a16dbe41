//! The broker engine: what a node decides for each packet that comes in on
//! one of its links.
//!
//! A request is answered from the response cache where the cache holds its
//! response, dropped where a copy of it is already in flight, and otherwise
//! forwarded to the links that the classifier ranks best for it. A response
//! is stored, and forwarded to the links on which its request is pending. The
//! cache itself is the caller's: the broker is told what the cache holds and
//! says what to store.

use crate::bayes::{Bayes, BayesView, MIN_PROB_DEN, SUPER_TRAIN, TRAIN};
use crate::faces::Udp;
use crate::hbfi::{hbfi_bytes, HBFIOnlyKeys, HBFI};
use crate::link::{InterLinkPacket, LinkId, LinkPacket};
use crate::narrow_waist::NarrowWaistPacket;
use crate::packets::SDR_BITS;
use crate::sdr::{
    entries, hits, indexed, lemma_hits_bound, ones, partly_forgotten, percentage,
    DECOHERENCE_LIMIT, MATCH_THRESHOLD,
};
use vstd::prelude::*;

verus! {

/// Which of the links that the classifier ranks a request is forwarded to.
#[derive(Clone, Copy, PartialEq, Eq, Debug)]
pub enum Policy {
    /// The links ranked first, up to this many.
    TopK(usize),
    /// The links whose weight is above `num / den`.
    Above { num: u32, den: u32 },
}

/// A link of the broker, and what the broker remembers of the requests and
/// responses that crossed it.
pub struct Peer {
    pub link_id: LinkId,
    pub face: Box<Udp>,
}

/// Why a packet was dropped.
#[derive(Clone, Copy, PartialEq, Eq, Debug)]
pub enum Reason {
    /// The packet came in on a link that the broker does not know.
    UnknownLink,
    /// A copy of the request is already in flight.
    InFlight,
    /// The response's signature does not verify.
    NotAuthentic,
}

/// What the broker decided for a packet.
#[derive(Clone, PartialEq, Eq, Debug)]
pub enum Decision {
    /// Nothing is sent.
    Dropped(Reason),
    /// The request is answered from the cache: the packet goes back out on
    /// the link the request came in on.
    Served(InterLinkPacket),
    /// The request goes out on other links, one packet for each.
    Forwarded(Vec<InterLinkPacket>),
    /// The response is to be stored under `key`, and goes out on the links
    /// that wait for it, one packet for each.
    Stored { key: Vec<u8>, value: Vec<u8>, forward: Vec<InterLinkPacket> },
}

impl Peer {
    /// The number that tells the link apart.
    pub open spec fn id(self) -> u32 {
        self.link_id.lookup_id
    }
}

/// Whether the peer remembers no request and no response: no bit is set.
pub open spec fn remembers_nothing(peer: Peer) -> bool {
    &&& forall|b: int| 0 <= b < SDR_BITS ==> !peer.face.pending_request()[b]
    &&& forall|b: int| 0 <= b < SDR_BITS ==> !peer.face.forwarded_request()[b]
    &&& forall|b: int| 0 <= b < SDR_BITS ==> !peer.face.forwarding_hint()[b]
}

/// Whether `now` is `was` with the bits of the index set.
pub open spec fn with_index(now: Seq<bool>, was: Seq<bool>, hbfi: HBFI) -> bool {
    forall|b: int|
        0 <= b < SDR_BITS ==> #[trigger] now[b] == (was[b] || indexed(hbfi.sdr_rows(), b))
}

/// Whether `now` is `was` with the bits of the index cleared.
pub open spec fn without_index(now: Seq<bool>, was: Seq<bool>, hbfi: HBFI) -> bool {
    forall|b: int|
        0 <= b < SDR_BITS ==> #[trigger] now[b] == (was[b] && !indexed(hbfi.sdr_rows(), b))
}

/// Whether no bit is set in `now` that is not set in `was`.
pub open spec fn within(now: Seq<bool>, was: Seq<bool>) -> bool {
    forall|b: int| 0 <= b < SDR_BITS && #[trigger] now[b] ==> was[b]
}

/// Whether more than `DECOHERENCE_LIMIT` percent of the bits are set.
pub open spec fn too_full(bits: Seq<bool>) -> bool {
    percentage(ones(bits, SDR_BITS as int), SDR_BITS as nat) > DECOHERENCE_LIMIT
}

/// Whether the bits hold the index to the share that counts as a match.
pub open spec fn holds(bits: Seq<bool>, hbfi: HBFI) -> bool {
    percentage(hits(bits, hbfi.sdr_rows()), entries(hbfi.sdr_rows())) >= MATCH_THRESHOLD
}

/// The place of the first peer with the number `id`; the number of peers
/// where there is none.
pub open spec fn place_of(peers: Seq<Peer>, id: u32) -> int
    decreases peers.len(),
{
    if peers.len() == 0 {
        0
    } else if peers[0].id() == id {
        0
    } else {
        1 + place_of(peers.skip(1), id)
    }
}

/// The places, in rising order, of the first `upto` peers that remember the
/// index as pending.
pub open spec fn waiting(peers: Seq<Peer>, hbfi: HBFI, upto: int) -> Seq<int>
    decreases upto,
{
    if upto <= 0 {
        Seq::empty()
    } else if holds(peers[upto - 1].face.pending_request(), hbfi) {
        waiting(peers, hbfi, upto - 1).push(upto - 1)
    } else {
        waiting(peers, hbfi, upto - 1)
    }
}

/// The places, in rising order, of the first `upto` peers other than the
/// one with the number `ingress`.
pub open spec fn others(peers: Seq<Peer>, ingress: u32, upto: int) -> Seq<int>
    decreases upto,
{
    if upto <= 0 {
        Seq::empty()
    } else if peers[upto - 1].id() != ingress {
        others(peers, ingress, upto - 1).push(upto - 1)
    } else {
        others(peers, ingress, upto - 1)
    }
}

/// The response that the cache holds for the index, if what it holds is the
/// wire form of a response to this index.
pub open spec fn cached_response(cached: Option<Seq<u8>>, hbfi: HBFI) -> Option<NarrowWaistPacket> {
    match cached {
        Some(bytes) => match NarrowWaistPacket::parsed(bytes) {
            Some(nw) => if nw is Response && nw.hbfi_spec() == hbfi {
                Some(nw)
            } else {
                None
            },
            None => None,
        },
        None => None,
    }
}

/// Whether the link `a` stands before the link `b` in the classifier's
/// ranking for the stream: by weight, and among equals the one seen first.
pub open spec fn outranks(model: BayesView, stream: HBFI, a: u32, b: u32) -> bool {
    model.scaled_weight(stream, a) > model.scaled_weight(stream, b) || (model.scaled_weight(
        stream,
        a,
    ) == model.scaled_weight(stream, b) && model.place(a) < model.place(b))
}

/// Whether the weight of the link for the stream is above `num / den`.
pub open spec fn above(model: BayesView, stream: HBFI, link: u32, num: u32, den: u32) -> bool {
    model.scaled_weight(stream, link) * den > num * (model.total() * MIN_PROB_DEN as int)
}

/// Whether one of the peers other than `ingress` has seen the stream.
pub open spec fn has_evidence(peers: Seq<Peer>, model: BayesView, stream: HBFI, ingress: u32) -> bool {
    exists|i: int|
        0 <= i < peers.len() && (#[trigger] peers[i]).id() != ingress
            && model.frequencies.dom().contains((stream, peers[i].id()))
}

/// Whether `chosen` holds the places of the peers that a request for the
/// stream, come in on `ingress`, is forwarded to.
///
/// While no peer but the ingress has seen the stream, these are all peers
/// but the ingress. Otherwise they are peers other than the ingress in the
/// order of the classifier's ranking: under `TopK` the first of them, up to
/// the number given, so that every peer left out is outranked by all that
/// were chosen; under `Above` all those whose weight is above the threshold.
pub open spec fn is_selection(
    peers: Seq<Peer>,
    model: BayesView,
    policy: Policy,
    stream: HBFI,
    ingress: u32,
    chosen: Seq<int>,
) -> bool {
    &&& forall|j: int|
        0 <= j < chosen.len() ==> 0 <= (#[trigger] chosen[j]) < peers.len() && peers[chosen[j]].id()
            != ingress
    &&& if !has_evidence(peers, model, stream, ingress) {
        chosen == others(peers, ingress, peers.len() as int)
    } else {
        &&& forall|j: int, k: int|
            0 <= j < k < chosen.len() ==> outranks(
                model,
                stream,
                peers[chosen[j]].id(),
                peers[chosen[k]].id(),
            )
        &&& match policy {
            Policy::TopK(most) => {
                &&& chosen.len() <= most
                &&& forall|i: int|
                    0 <= i < peers.len() && (#[trigger] peers[i]).id() != ingress
                        && !chosen.contains(i) ==> chosen.len() == most && forall|j: int|
                        0 <= j < chosen.len() ==> outranks(
                            model,
                            stream,
                            peers[#[trigger] chosen[j]].id(),
                            peers[i].id(),
                        )
            },
            Policy::Above { num, den } => {
                &&& forall|j: int|
                    0 <= j < chosen.len() ==> above(
                        model,
                        stream,
                        peers[#[trigger] chosen[j]].id(),
                        num,
                        den,
                    )
                &&& forall|i: int|
                    0 <= i < peers.len() && (#[trigger] peers[i]).id() != ingress && above(
                        model,
                        stream,
                        peers[i].id(),
                        num,
                        den,
                    ) ==> chosen.contains(i)
            },
        }
    }
}

/// The model after the broker learnt that the stream was seen on the link
/// with the weight `amount`; the model as it was where a count would leave
/// its range.
pub open spec fn learnt(model: BayesView, stream: HBFI, link: u32, amount: int) -> BayesView {
    if model.total() + amount <= i64::MAX {
        model.trained(stream, link, amount)
    } else {
        model
    }
}

/// An index has 24 entries, and so no more hits than that.
pub proof fn lemma_index_entries(bits: Seq<bool>, hbfi: HBFI)
    ensures
        entries(hbfi.sdr_rows()) == 24,
        hits(bits, hbfi.sdr_rows()) <= 24,
{
    let rows = hbfi.sdr_rows();
    assert(rows.drop_last().drop_last().drop_last().drop_last() =~= Seq::<Seq<u16>>::empty());
    assert(entries(rows.drop_last().drop_last().drop_last().drop_last()) == 0);
    assert(entries(rows.drop_last().drop_last().drop_last()) == 6);
    assert(entries(rows.drop_last().drop_last()) == 12);
    assert(entries(rows.drop_last()) == 18);
    lemma_hits_bound(bits, rows);
}

/// The place of a number lies among the peers or right behind them; the peer
/// at the place has the number, and no peer before it has.
pub proof fn lemma_place_of(peers: Seq<Peer>, id: u32)
    ensures
        0 <= place_of(peers, id) <= peers.len(),
        place_of(peers, id) < peers.len() ==> peers[place_of(peers, id)].id() == id,
        forall|k: int| 0 <= k < place_of(peers, id) ==> (#[trigger] peers[k]).id() != id,
    decreases peers.len(),
{
    if peers.len() > 0 && peers[0].id() != id {
        lemma_place_of(peers.skip(1), id);
        assert forall|k: int| 0 <= k < place_of(peers, id) implies (#[trigger] peers[k]).id()
            != id by {
            if k > 0 {
                assert(peers[k] == peers.skip(1)[k - 1]);
            }
        }
    }
}

/// What `waiting` holds: places in rising order, of exactly the peers that
/// remember the index as pending.
pub proof fn lemma_waiting(peers: Seq<Peer>, hbfi: HBFI, upto: int)
    requires
        0 <= upto <= peers.len(),
    ensures
        forall|j: int|
            0 <= j < waiting(peers, hbfi, upto).len() ==> 0 <= (#[trigger] waiting(
                peers,
                hbfi,
                upto,
            )[j]) < upto && holds(peers[waiting(peers, hbfi, upto)[j]].face.pending_request(), hbfi),
        forall|k: int|
            0 <= k < upto && holds((#[trigger] peers[k]).face.pending_request(), hbfi) ==> waiting(
                peers,
                hbfi,
                upto,
            ).contains(k),
        forall|i: int, j: int|
            0 <= i < j < waiting(peers, hbfi, upto).len() ==> waiting(peers, hbfi, upto)[i]
                < waiting(peers, hbfi, upto)[j],
    decreases upto,
{
    if upto > 0 {
        lemma_waiting(peers, hbfi, upto - 1);
        let before = waiting(peers, hbfi, upto - 1);
        let now = waiting(peers, hbfi, upto);
        assert forall|k: int|
            0 <= k < upto && holds((#[trigger] peers[k]).face.pending_request(), hbfi) implies now.contains(
            k,
        ) by {
            if k < upto - 1 {
                let j = choose|j: int| 0 <= j < before.len() && before[j] == k;
                assert(now[j] == k);
            } else {
                assert(now[now.len() - 1] == k);
            }
        }
    }
}

fn find_peer(peers: &Vec<Peer>, id: u32) -> (found: Option<usize>)
    ensures
        match found {
            Some(i) => i == place_of(peers@, id) && i < peers@.len() && peers@[i as int].id() == id,
            None => place_of(peers@, id) == peers@.len() && forall|k: int|
                0 <= k < peers@.len() ==> (#[trigger] peers@[k]).id() != id,
        },
{
    proof {
        lemma_place_of(peers@, id);
    }
    let mut i: usize = 0;
    while i < peers.len()
        invariant
            i <= peers@.len(),
            forall|k: int| 0 <= k < i ==> (#[trigger] peers@[k]).id() != id,
        decreases peers@.len() - i,
    {
        if peers[i].link_id.lookup_id == id {
            proof {
                lemma_place_of(peers@, id);
                let p = place_of(peers@, id);
                assert(peers@[i as int].id() == id);
                if p < i {
                    assert(peers@[p].id() == id);
                }
            }
            return Some(i);
        }
        i += 1;
    }
    proof {
        let p = place_of(peers@, id);
        if p < peers@.len() {
            assert(peers@[p].id() == id);
        }
    }
    None
}

/// The broker: its links, what it has learnt, and its forwarding policy.
pub struct Broker {
    peers: Vec<Peer>,
    bayes: Bayes,
    policy: Policy,
}

impl Broker {
    /// The links of the broker, in the order in which it came to know them.
    pub closed spec fn peers(&self) -> Seq<Peer> {
        self.peers@
    }

    /// What the classifier has learnt.
    pub closed spec fn model(&self) -> BayesView {
        self.bayes@
    }

    /// The forwarding policy.
    pub closed spec fn policy(&self) -> Policy {
        self.policy
    }

    /// No two links have the same number, and the classifier knows every
    /// link.
    #[verifier::type_invariant]
    spec fn inv(&self) -> bool {
        &&& self.bayes@.wf()
        &&& forall|i: int, j: int|
            0 <= i < j < self.peers@.len() ==> (#[trigger] self.peers@[i]).id() != (
            #[trigger] self.peers@[j]).id()
        &&& forall|i: int|
            0 <= i < self.peers@.len() ==> self.bayes@.counts.dom().contains(
                (#[trigger] self.peers@[i]).id(),
            )
    }

    /// A broker without links that has learnt nothing.
    pub fn new(policy: Policy) -> (broker: Broker)
        ensures
            broker.peers().len() == 0,
            broker.model() == BayesView::empty(),
            broker.policy() == policy,
    {
        Broker { peers: Vec::new(), bayes: Bayes::new(), policy }
    }

    /// Whether the broker knows a link with the number of `link_id`.
    pub fn knows(&self, link_id: &LinkId) -> (known: bool)
        ensures
            known == (place_of(self.peers(), link_id.lookup_id) < self.peers().len()),
    {
        find_peer(&self.peers, link_id.lookup_id).is_some()
    }

    /// The number of links.
    pub fn len(&self) -> (n: usize)
        ensures
            n == self.peers().len(),
    {
        self.peers.len()
    }

    /// Makes the link one of the broker's. A new link comes last, remembers
    /// nothing, and enters the classifier's model with the count 0. A link
    /// whose number the broker knows already changes nothing.
    pub fn peer_with(&mut self, link_id: LinkId)
        ensures
            final(self).policy() == old(self).policy(),
            place_of(old(self).peers(), link_id.lookup_id) < old(self).peers().len() ==> {
                &&& final(self).peers() == old(self).peers()
                &&& final(self).model() == old(self).model()
            },
            place_of(old(self).peers(), link_id.lookup_id) == old(self).peers().len() ==> {
                &&& final(self).peers().len() == old(self).peers().len() + 1
                &&& final(self).peers().drop_last() == old(self).peers()
                &&& final(self).peers().last().link_id == link_id
                &&& remembers_nothing(final(self).peers().last())
                &&& final(self).model() == old(self).model().registered(link_id.lookup_id, 0)
            },
    {
        proof {
            use_type_invariant(&*self);
            lemma_place_of(self.peers@, link_id.lookup_id);
        }
        if find_peer(&self.peers, link_id.lookup_id).is_some() {
            return ;
        }
        let mut work = Broker::new(self.policy);
        core::mem::swap(self, &mut work);
        let Broker { peers, bayes, policy } = work;
        let mut peers = peers;
        let mut bayes = bayes;
        let ghost before = peers@;
        let ghost model = bayes@;
        bayes.add_link(&link_id);
        peers.push(Peer { link_id, face: Udp::new() });
        proof {
            assert(peers@.drop_last() =~= before);
            assert forall|i: int| 0 <= i < peers@.len() implies bayes@.counts.dom().contains(
                (#[trigger] peers@[i]).id(),
            ) by {
                if i < before.len() {
                    assert(model.counts.dom().contains(before[i].id()));
                }
            }
        }
        *self = Broker { peers, bayes, policy };
    }

    /// Lets every representation that is fuller than `DECOHERENCE_LIMIT`
    /// forget part of what it holds: it loses the bits that one round of
    /// random draws names. No bit is set by this, and the representations
    /// that are not so full stay as they are.
    pub fn maintain(&mut self)
        ensures
            final(self).policy() == old(self).policy(),
            final(self).model() == old(self).model(),
            final(self).peers().len() == old(self).peers().len(),
            forall|k: int|
                0 <= k < old(self).peers().len() ==> maintained(
                    #[trigger] final(self).peers()[k],
                    old(self).peers()[k],
                ),
    {
        proof {
            use_type_invariant(&*self);
        }
        let mut work = Broker::new(self.policy);
        core::mem::swap(self, &mut work);
        let Broker { peers, bayes, policy } = work;
        let mut peers = peers;
        let ghost before = peers@;
        let mut k: usize = 0;
        while k < peers.len()
            invariant
                k <= peers@.len() == before.len(),
                forall|i: int| k <= i < before.len() ==> peers@[i] == before[i],
                forall|i: int| 0 <= i < k ==> maintained(#[trigger] peers@[i], before[i]),
            decreases peers@.len() - k,
        {
            if peers[k].face.pending_request_decoherence() > DECOHERENCE_LIMIT {
                peers[k].face.partially_forget_pending_request();
            }
            if peers[k].face.forwarded_request_decoherence() > DECOHERENCE_LIMIT {
                peers[k].face.partially_forget_forwarded_request();
            }
            if peers[k].face.forwarding_hint_decoherence() > DECOHERENCE_LIMIT {
                peers[k].face.partially_forget_forwarding_hint();
            }
            k += 1;
        }
        proof {
            assert forall|i: int, j: int| 0 <= i < j < peers@.len() implies (
            #[trigger] peers@[i]).id() != (#[trigger] peers@[j]).id() by {
                assert(maintained(peers@[i], before[i]));
                assert(maintained(peers@[j], before[j]));
            }
            assert forall|i: int| 0 <= i < peers@.len() implies bayes@.counts.dom().contains(
                (#[trigger] peers@[i]).id(),
            ) by {
                assert(maintained(peers@[i], before[i]));
            }
        }
        *self = Broker { peers, bayes, policy };
    }
}

/// Whether the bits `now` are the bits `was` after maintenance: as they were
/// where they were not too full, and otherwise after one round of forgetting.
pub open spec fn kept_or_forgotten(now: Seq<bool>, was: Seq<bool>) -> bool {
    if too_full(was) {
        partly_forgotten(was, now)
    } else {
        now == was
    }
}

/// Whether `now` is the peer `was` after maintenance: the same link and the
/// same face, each of its representations as it was where it was not too
/// full, and otherwise after one round of forgetting. No bit is set that was
/// not set before.
pub open spec fn maintained(now: Peer, was: Peer) -> bool {
    &&& now.link_id == was.link_id
    &&& now.face.number() == was.face.number()
    &&& within(now.face.pending_request(), was.face.pending_request())
    &&& within(now.face.forwarded_request(), was.face.forwarded_request())
    &&& within(now.face.forwarding_hint(), was.face.forwarding_hint())
    &&& kept_or_forgotten(now.face.pending_request(), was.face.pending_request())
    &&& kept_or_forgotten(now.face.forwarded_request(), was.face.forwarded_request())
    &&& kept_or_forgotten(now.face.forwarding_hint(), was.face.forwarding_hint())
}

/// What the cache holds, as bytes.
pub open spec fn held_bytes(cached: Option<&Vec<u8>>) -> Option<Seq<u8>> {
    match cached {
        Some(bytes) => Some(bytes@),
        None => None,
    }
}

/// Whether `decision`, and the broker with the peers `now` and the model
/// `learnt_now`, are what becomes of a broker with the peers `peers` and the
/// model `model` when the response `ilp` comes in.
///
/// A response from a link that the broker does not know, or one whose
/// signature does not verify, is dropped, and nothing changes. Any other
/// response is to be stored under the wire form of its index; it counts as
/// strong evidence for the link it came from; it goes out on every link on
/// which its request is pending, in the order of the links, and is no longer
/// pending there; the link it came from remembers that it arrived.
pub open spec fn responded(
    peers: Seq<Peer>,
    model: BayesView,
    now: Seq<Peer>,
    learnt_now: BayesView,
    ilp: InterLinkPacket,
    decision: Decision,
) -> bool {
    let ingress = place_of(peers, ilp.link_id.lookup_id);
    let hbfi = ilp.lp.nw.hbfi_spec();
    let to = waiting(peers, hbfi, peers.len() as int);
    if ingress == peers.len() {
        &&& decision == Decision::Dropped(Reason::UnknownLink)
        &&& now == peers
        &&& learnt_now == model
    } else if !ilp.lp.nw.authentic() {
        &&& decision == Decision::Dropped(Reason::NotAuthentic)
        &&& now == peers
        &&& learnt_now == model
    } else {
        &&& decision matches Decision::Stored { key, value, forward }
        &&& key@ == hbfi_bytes(hbfi)
        &&& value@ == ilp.lp.nw.bytes()
        &&& forward@.len() == to.len()
        &&& forall|j: int|
            0 <= j < to.len() ==> #[trigger] forward@[j] == (InterLinkPacket {
                link_id: peers[to[j]].link_id,
                lp: ilp.lp,
            })
        &&& learnt_now == learnt(
            model,
            HBFIOnlyKeys(hbfi).stream(),
            ilp.link_id.lookup_id,
            SUPER_TRAIN as int,
        )
        &&& forall|k: int|
            0 <= k < peers.len() ==> answered(#[trigger] now[k], peers[k], hbfi, k == ingress)
    }
}

/// Whether `decision`, and the broker with the peers `now` and the model
/// `learnt_now`, are what becomes of a broker with the peers `peers`, the
/// model `model` and the policy `policy` when the request `ilp` comes in
/// while the response cache holds `cached` under the request's index.
///
/// A request from a link that the broker does not know is dropped. Where the
/// cache holds the response to the index, the response goes back on the link
/// the request came in on, and nothing else happens. Where some link already
/// remembers the request as pending, a copy is in flight and the request is
/// dropped. Any other request is remembered as pending on its link and counts
/// as evidence for it; it goes out on the links that `is_selection`
/// describes, which remember it as forwarded.
pub open spec fn requested(
    peers: Seq<Peer>,
    model: BayesView,
    policy: Policy,
    now: Seq<Peer>,
    learnt_now: BayesView,
    ilp: InterLinkPacket,
    cached: Option<Seq<u8>>,
    decision: Decision,
) -> bool {
    let ingress = place_of(peers, ilp.link_id.lookup_id);
    let hbfi = ilp.lp.nw.hbfi_spec();
    let held = cached_response(cached, hbfi);
    if ingress == peers.len() {
        &&& decision == Decision::Dropped(Reason::UnknownLink)
        &&& now == peers
        &&& learnt_now == model
    } else if held is Some {
        &&& decision == Decision::Served(
            InterLinkPacket {
                link_id: ilp.link_id,
                lp: LinkPacket { reply_to: ilp.link_id.reply_to, nw: held->0 },
            },
        )
        &&& now == peers
        &&& learnt_now == model
    } else if waiting(peers, hbfi, peers.len() as int).len() > 0 {
        &&& decision == Decision::Dropped(Reason::InFlight)
        &&& now == peers
        &&& learnt_now == model
    } else {
        &&& decision matches Decision::Forwarded(packets)
        &&& learnt_now == learnt(
            model,
            HBFIOnlyKeys(hbfi).stream(),
            ilp.link_id.lookup_id,
            TRAIN as int,
        )
        &&& is_selection(
            peers,
            learnt_now,
            policy,
            HBFIOnlyKeys(hbfi).stream(),
            ilp.link_id.lookup_id,
            egress(peers, packets@),
        )
        &&& forall|j: int|
            0 <= j < packets@.len() ==> #[trigger] packets@[j] == (InterLinkPacket {
                link_id: peers[egress(peers, packets@)[j]].link_id,
                lp: ilp.lp,
            })
        &&& forall|k: int|
            0 <= k < peers.len() ==> asked(
                #[trigger] now[k],
                peers[k],
                hbfi,
                k == ingress,
                egress(peers, packets@).contains(k),
            )
    }
}

/// Whether `now` is the peer `was` after a response for the index came in;
/// `ingress` tells whether it came in on this peer's link. A peer that
/// remembered the request as pending no longer does; the ingress remembers
/// that a response arrived for the index.
pub open spec fn answered(now: Peer, was: Peer, hbfi: HBFI, ingress: bool) -> bool {
    &&& now.link_id == was.link_id
    &&& if holds(was.face.pending_request(), hbfi) {
        without_index(now.face.pending_request(), was.face.pending_request(), hbfi)
    } else {
        now.face.pending_request() == was.face.pending_request()
    }
    &&& now.face.forwarded_request() == was.face.forwarded_request()
    &&& if ingress {
        with_index(now.face.forwarding_hint(), was.face.forwarding_hint(), hbfi)
    } else {
        now.face.forwarding_hint() == was.face.forwarding_hint()
    }
}

impl Broker {
    /// Decides what to do with a response that came in, as `responded` says.
    pub fn on_response(&mut self, ilp: &InterLinkPacket) -> (decision: Decision)
        ensures
            final(self).policy() == old(self).policy(),
            final(self).peers().len() == old(self).peers().len(),
            responded(
                old(self).peers(),
                old(self).model(),
                final(self).peers(),
                final(self).model(),
                *ilp,
                decision,
            ),
    {
        proof {
            use_type_invariant(&*self);
        }
        let nw = ilp.narrow_waist();
        let hbfi = nw.hbfi();
        let ingress = match find_peer(&self.peers, ilp.link_id.lookup_id) {
            Some(i) => i,
            None => {
                return Decision::Dropped(Reason::UnknownLink);
            },
        };
        if !nw.verify() {
            return Decision::Dropped(Reason::NotAuthentic);
        }
        let key = hbfi.to_bytes();
        let value = nw.to_bytes();
        let fp = hbfi.sdr_index();
        let mut work = Broker::new(self.policy);
        core::mem::swap(self, &mut work);
        let Broker { peers, bayes, policy } = work;
        let mut peers = peers;
        let mut bayes = bayes;
        let ghost before = peers@;
        let ghost model = bayes@;
        if bayes.total() <= i64::MAX - SUPER_TRAIN {
            bayes.super_train(&hbfi, &ilp.link_id);
        }
        let mut forward: Vec<InterLinkPacket> = Vec::new();
        let mut k: usize = 0;
        while k < peers.len()
            invariant
                k <= peers@.len() == before.len(),
                fp.deep_view() == hbfi.sdr_rows(),
                crate::packets::sdri_in_range(fp.deep_view()),
                forall|i: int| k <= i < before.len() ==> peers@[i] == before[i],
                forall|i: int|
                    0 <= i < k ==> answered(#[trigger] peers@[i], before[i], hbfi, false),
                forward@.len() == waiting(before, hbfi, k as int).len(),
                forall|j: int|
                    0 <= j < forward@.len() ==> #[trigger] forward@[j] == (InterLinkPacket {
                        link_id: before[waiting(before, hbfi, k as int)[j]].link_id,
                        lp: ilp.lp,
                    }),
            decreases peers@.len() - k,
        {
            proof {
                lemma_index_entries(peers@[k as int].face.pending_request(), hbfi);
            }
            if peers[k].face.contains_pending_request(&fp) >= MATCH_THRESHOLD {
                forward.push(InterLinkPacket::new(peers[k].link_id, ilp.link_packet()));
                peers[k].face.delete_pending_request(&fp);
            }
            k += 1;
        }
        let ghost middle = peers@;
        peers[ingress].face.create_forwarding_hint(&fp);
        proof {
            assert forall|i: int| 0 <= i < before.len() implies answered(
                #[trigger] peers@[i],
                before[i],
                hbfi,
                i == ingress,
            ) by {
                assert(answered(middle[i], before[i], hbfi, false));
            }
            assert forall|i: int, j: int| 0 <= i < j < peers@.len() implies (
            #[trigger] peers@[i]).id() != (#[trigger] peers@[j]).id() by {
                assert(answered(peers@[i], before[i], hbfi, i == ingress));
                assert(answered(peers@[j], before[j], hbfi, j == ingress));
            }
            assert forall|i: int| 0 <= i < peers@.len() implies bayes@.counts.dom().contains(
                (#[trigger] peers@[i]).id(),
            ) by {
                assert(answered(peers@[i], before[i], hbfi, i == ingress));
                assert(model.counts.dom().contains(before[i].id()));
            }
        }
        *self = Broker { peers, bayes, policy };
        Decision::Stored { key, value, forward }
    }
}

/// Whether `now` is the peer `was` after a request for the index was taken
/// up; `ingress` tells whether it came in on this peer's link, `egress`
/// whether it went out on it. The ingress remembers the request as pending,
/// an egress as forwarded.
pub open spec fn asked(now: Peer, was: Peer, hbfi: HBFI, ingress: bool, egress: bool) -> bool {
    &&& now.link_id == was.link_id
    &&& if ingress {
        with_index(now.face.pending_request(), was.face.pending_request(), hbfi)
    } else {
        now.face.pending_request() == was.face.pending_request()
    }
    &&& if egress {
        with_index(now.face.forwarded_request(), was.face.forwarded_request(), hbfi)
    } else {
        now.face.forwarded_request() == was.face.forwarded_request()
    }
    &&& now.face.forwarding_hint() == was.face.forwarding_hint()
}

/// No two peers have the same number.
pub open spec fn distinct(peers: Seq<Peer>) -> bool {
    forall|i: int, j: int|
        0 <= i < j < peers.len() ==> (#[trigger] peers[i]).id() != (#[trigger] peers[j]).id()
}

/// Among peers with distinct numbers each stands at the place of its number.
pub proof fn lemma_place_unique(peers: Seq<Peer>, i: int)
    requires
        distinct(peers),
        0 <= i < peers.len(),
    ensures
        place_of(peers, peers[i].id()) == i,
{
    lemma_place_of(peers, peers[i].id());
    let p = place_of(peers, peers[i].id());
    if p < i {
        assert(peers[p].id() == peers[i].id());
    }
    if p > i {
        assert(peers[i].id() != peers[i].id());
    }
}

/// What `others` holds: the places, in rising order, of exactly the peers
/// whose number is not `ingress`.
pub proof fn lemma_others(peers: Seq<Peer>, ingress: u32, upto: int)
    requires
        0 <= upto <= peers.len(),
    ensures
        forall|j: int|
            0 <= j < others(peers, ingress, upto).len() ==> 0 <= (#[trigger] others(
                peers,
                ingress,
                upto,
            )[j]) < upto && peers[others(peers, ingress, upto)[j]].id() != ingress,
    decreases upto,
{
    if upto > 0 {
        lemma_others(peers, ingress, upto - 1);
        let before = others(peers, ingress, upto - 1);
        let now = others(peers, ingress, upto);
        assert forall|j: int| 0 <= j < now.len() implies 0 <= (#[trigger] now[j]) < upto
            && peers[now[j]].id() != ingress by {
            if j < before.len() {
                assert(now[j] == before[j]);
            }
        }
    }
}

fn places(chosen: &Vec<usize>) -> (out: Ghost<Seq<int>>)
    ensures
        out@ == chosen@.map_values(|c: usize| c as int),
{
    Ghost(chosen@.map_values(|c: usize| c as int))
}

/// Chooses the peers that a request for `hbfi`, come in on the link with the
/// number `ingress`, is forwarded to.
fn select(peers: &Vec<Peer>, bayes: &Bayes, policy: Policy, hbfi: &HBFI, ingress: u32) -> (chosen:
    Vec<usize>)
    requires
        bayes@.wf(),
        bayes@.total() > 0,
        distinct(peers@),
        forall|i: int|
            0 <= i < peers@.len() ==> bayes@.counts.dom().contains((#[trigger] peers@[i]).id()),
    ensures
        is_selection(
            peers@,
            bayes@,
            policy,
            HBFIOnlyKeys(*hbfi).stream(),
            ingress,
            chosen@.map_values(|c: usize| c as int),
        ),
{
    let ghost stream = HBFIOnlyKeys(*hbfi).stream();
    let ghost model = bayes@;
    let key = HBFIOnlyKeys(*hbfi);
    let total = bayes.total();
    let mut evidence = false;
    let mut k: usize = 0;
    while k < peers.len()
        invariant
            k <= peers@.len(),
            key == HBFIOnlyKeys(*hbfi),
            stream == key.stream(),
            model == bayes@,
            evidence == (exists|i: int|
                0 <= i < k && (#[trigger] peers@[i]).id() != ingress
                    && model.frequencies.dom().contains((stream, peers@[i].id()))),
        decreases peers@.len() - k,
    {
        if peers[k].link_id.lookup_id != ingress {
            let seen = bayes.get_frequency(&key, &peers[k].link_id);
            if seen.0.is_some() {
                evidence = true;
            }
        }
        k += 1;
    }
    let mut chosen: Vec<usize> = Vec::new();
    if !evidence {
        let mut k: usize = 0;
        while k < peers.len()
            invariant
                k <= peers@.len(),
                chosen@.map_values(|c: usize| c as int) == others(peers@, ingress, k as int),
            decreases peers@.len() - k,
        {
            if peers[k].link_id.lookup_id != ingress {
                chosen.push(k);
            }
            proof {
                assert(chosen@.map_values(|c: usize| c as int) =~= others(
                    peers@,
                    ingress,
                    k + 1,
                ));
            }
            k += 1;
        }
        proof {
            lemma_others(peers@, ingress, peers@.len() as int);
        }
        return chosen;
    }
    let ranked = bayes.classify(hbfi);
    let ghost mut from: Seq<int> = Seq::empty();
    let mut p: usize = 0;
    while p < ranked.len()
        invariant
            p <= ranked@.len(),
            model == bayes@,
            model.wf(),
            0 < model.total() <= i64::MAX,
            stream == HBFIOnlyKeys(*hbfi).stream(),
            distinct(peers@),
            from.len() == chosen@.len(),
            forall|q: int|
                0 <= q < ranked@.len() ==> {
                    let id = (#[trigger] ranked@[q]).linkid.lookup_id;
                    &&& model.counts.dom().contains(id)
                    &&& ranked@[q].weight.num == model.scaled_weight(stream, id)
                    &&& ranked@[q].weight.den == model.total() * MIN_PROB_DEN
                },
            forall|a: int, b: int|
                0 <= a < b < ranked@.len() ==> outranks(
                    model,
                    stream,
                    ranked@[a].linkid.lookup_id,
                    ranked@[b].linkid.lookup_id,
                ),
            forall|j: int|
                0 <= j < chosen@.len() ==> {
                    &&& (#[trigger] chosen@[j]) < peers@.len()
                    &&& peers@[chosen@[j] as int].id() != ingress
                    &&& 0 <= from[j] < p
                    &&& ranked@[from[j]].linkid.lookup_id == peers@[chosen@[j] as int].id()
                },
            forall|j: int, l: int| 0 <= j < l < from.len() ==> from[j] < from[l],
            match policy {
                Policy::TopK(most) => {
                    &&& chosen@.len() <= most
                    &&& forall|q: int|
                        0 <= q < p && (#[trigger] ranked@[q]).linkid.lookup_id != ingress
                            && place_of(peers@, ranked@[q].linkid.lookup_id) < peers@.len() ==> {
                            ||| exists|j: int| 0 <= j < from.len() && from[j] == q
                            ||| chosen@.len() == most && forall|j: int|
                                0 <= j < from.len() ==> #[trigger] from[j] < q
                        }
                },
                Policy::Above { num, den } => {
                    &&& forall|j: int|
                        0 <= j < chosen@.len() ==> above(
                            model,
                            stream,
                            peers@[(#[trigger] chosen@[j]) as int].id(),
                            num,
                            den,
                        )
                    &&& forall|q: int|
                        0 <= q < p && (#[trigger] ranked@[q]).linkid.lookup_id != ingress
                            && place_of(peers@, ranked@[q].linkid.lookup_id) < peers@.len()
                            && above(model, stream, ranked@[q].linkid.lookup_id, num, den)
                            ==> exists|j: int| 0 <= j < from.len() && from[j] == q
                },
            },
        decreases ranked@.len() - p,
    {
        let entry = ranked[p];
        let id = entry.linkid.lookup_id;
        let ghost was = from;
        let ghost picked_before = chosen@;
        proof {
            assert forall|j: int| 0 <= j < was.len() implies 0 <= #[trigger] was[j] < p by {
                let c = picked_before[j];
            }
        }
        if id != ingress {
            match find_peer(peers, id) {
                Some(i) => {
                    let take = match policy {
                        Policy::TopK(most) => chosen.len() < most,
                        Policy::Above { num, den } => {
                            proof {
                                crate::bayes::lemma_scaled_weight(model, stream, id);
                                assert(model.total() * MIN_PROB_DEN as int <= i64::MAX
                                    * 1_000_000_000) by (nonlinear_arith)
                                    requires
                                        0 < model.total() <= i64::MAX,
                                        MIN_PROB_DEN == 1_000_000_000,
                                ;
                                assert(entry.weight.num * den <= i64::MAX * 1_000_000_000
                                    * u32::MAX) by (nonlinear_arith)
                                    requires
                                        0 <= entry.weight.num <= i64::MAX * 1_000_000_000,
                                        0 <= den <= u32::MAX,
                                ;
                                assert(num * entry.weight.den <= u32::MAX * (i64::MAX
                                    * 1_000_000_000)) by (nonlinear_arith)
                                    requires
                                        0 <= entry.weight.den <= i64::MAX * 1_000_000_000,
                                        0 <= num <= u32::MAX,
                                ;
                            }
                            entry.weight.num * (den as u128) > (num as u128) * entry.weight.den
                        },
                    };
                    if take {
                        chosen.push(i);
                        proof {
                            from = from.push(p as int);
                        }
                    }
                    proof {
                        assert forall|j: int, l: int| 0 <= j < l < from.len() implies from[j]
                            < from[l] by {
                            if l < was.len() {
                                assert(was[j] < was[l]);
                            }
                        }
                        match policy {
                            Policy::TopK(most) => {
                                assert forall|q: int|
                                    0 <= q < p + 1 && (#[trigger] ranked@[q]).linkid.lookup_id
                                        != ingress && place_of(
                                        peers@,
                                        ranked@[q].linkid.lookup_id,
                                    ) < peers@.len() implies {
                                    ||| exists|j: int| 0 <= j < from.len() && from[j] == q
                                    ||| chosen@.len() == most && forall|j: int|
                                        0 <= j < from.len() ==> #[trigger] from[j] < q
                                } by {
                                    if q < p {
                                        if exists|j: int| 0 <= j < was.len() && was[j] == q {
                                            let j = choose|j: int|
                                                0 <= j < was.len() && was[j] == q;
                                            assert(from[j] == q);
                                        } else {
                                            assert(picked_before.len() == most);
                                            assert(from == was);
                                        }
                                    } else {
                                        if take {
                                            assert(from[from.len() - 1] == q);
                                        } else {
                                            assert(from == was);
                                        }
                                    }
                                }
                            },
                            Policy::Above { num, den } => {
                                assert forall|q: int|
                                    0 <= q < p + 1 && (#[trigger] ranked@[q]).linkid.lookup_id
                                        != ingress && place_of(
                                        peers@,
                                        ranked@[q].linkid.lookup_id,
                                    ) < peers@.len() && above(
                                        model,
                                        stream,
                                        ranked@[q].linkid.lookup_id,
                                        num,
                                        den,
                                    ) implies exists|j: int|
                                    0 <= j < from.len() && from[j] == q by {
                                    if q < p {
                                        let j = choose|j: int| 0 <= j < was.len() && was[j] == q;
                                        assert(from[j] == q);
                                    } else {
                                        assert(take);
                                        assert(from[from.len() - 1] == q);
                                    }
                                }
                            },
                        }
                    }
                },
                None => {},
            }
        }
        p += 1;
    }
    proof {
        let picked = chosen@.map_values(|c: usize| c as int);
        assert(has_evidence(peers@, model, stream, ingress));
        assert forall|j: int, l: int| 0 <= j < l < picked.len() implies outranks(
            model,
            stream,
            peers@[picked[j]].id(),
            peers@[picked[l]].id(),
        ) by {
            assert(from[j] < from[l]);
            assert(ranked@[from[j]].linkid.lookup_id == peers@[chosen@[j] as int].id());
            assert(ranked@[from[l]].linkid.lookup_id == peers@[chosen@[l] as int].id());
        }
        match policy {
            Policy::TopK(most) => {
                assert forall|i: int|
                    0 <= i < peers@.len() && (#[trigger] peers@[i]).id() != ingress
                        && !picked.contains(i) implies picked.len() == most && forall|j: int|
                    0 <= j < picked.len() ==> outranks(
                        model,
                        stream,
                        peers@[#[trigger] picked[j]].id(),
                        peers@[i].id(),
                    ) by {
                    let id = peers@[i].id();
                    assert(model.order.contains(id));
                    let q = choose|q: int|
                        0 <= q < ranked@.len() && (#[trigger] ranked@[q]).linkid.lookup_id == id;
                    lemma_place_unique(peers@, i);
                    if exists|j: int| 0 <= j < from.len() && from[j] == q {
                        let j = choose|j: int| 0 <= j < from.len() && from[j] == q;
                        assert(peers@[chosen@[j] as int].id() == id);
                        lemma_place_unique(peers@, chosen@[j] as int);
                        assert(picked[j] == i);
                        assert(false);
                    }
                    assert forall|j: int| 0 <= j < picked.len() implies outranks(
                        model,
                        stream,
                        peers@[#[trigger] picked[j]].id(),
                        peers@[i].id(),
                    ) by {
                        assert(from[j] < q);
                        assert(ranked@[from[j]].linkid.lookup_id == peers@[chosen@[j] as int].id());
                    }
                }
            },
            Policy::Above { num, den } => {
                assert forall|i: int|
                    0 <= i < peers@.len() && (#[trigger] peers@[i]).id() != ingress && above(
                        model,
                        stream,
                        peers@[i].id(),
                        num,
                        den,
                    ) implies picked.contains(i) by {
                    let id = peers@[i].id();
                    assert(model.order.contains(id));
                    let q = choose|q: int|
                        0 <= q < ranked@.len() && (#[trigger] ranked@[q]).linkid.lookup_id == id;
                    lemma_place_unique(peers@, i);
                    let j = choose|j: int| 0 <= j < from.len() && from[j] == q;
                    assert(peers@[chosen@[j] as int].id() == id);
                    lemma_place_unique(peers@, chosen@[j] as int);
                    assert(picked[j] == i);
                }
            },
        }
    }
    chosen
}

impl Broker {
    /// Decides what to do with a request that came in, as `requested` says;
    /// `cached` is what the response cache holds under the wire form of the
    /// request's index.
    pub fn on_request(&mut self, ilp: &InterLinkPacket, cached: Option<&Vec<u8>>) -> (decision:
        Decision)
        ensures
            final(self).policy() == old(self).policy(),
            final(self).peers().len() == old(self).peers().len(),
            requested(
                old(self).peers(),
                old(self).model(),
                old(self).policy(),
                final(self).peers(),
                final(self).model(),
                *ilp,
                held_bytes(cached),
                decision,
            ),
    {
        proof {
            use_type_invariant(&*self);
        }
        let nw = ilp.narrow_waist();
        let hbfi = nw.hbfi();
        let ingress = match find_peer(&self.peers, ilp.link_id.lookup_id) {
            Some(i) => i,
            None => {
                return Decision::Dropped(Reason::UnknownLink);
            },
        };
        match held_response(cached, &hbfi) {
            Some(held) => {
                let lp = LinkPacket::new(ilp.link_id.reply_to(), held);
                return Decision::Served(InterLinkPacket::new(ilp.link_id, lp));
            },
            None => {},
        }
        let fp = hbfi.sdr_index();
        let mut k: usize = 0;
        while k < self.peers.len()
            invariant
                k <= self.peers@.len(),
                fp.deep_view() == hbfi.sdr_rows(),
                crate::packets::sdri_in_range(fp.deep_view()),
                waiting(self.peers@, hbfi, k as int).len() == 0,
                *self == *old(self),
                hbfi == ilp.lp.nw.hbfi_spec(),
                ingress == place_of(self.peers@, ilp.link_id.lookup_id),
                ingress < self.peers@.len(),
                cached_response(held_bytes(cached), hbfi) is None,
            decreases self.peers@.len() - k,
        {
            proof {
                lemma_index_entries(self.peers@[k as int].face.pending_request(), hbfi);
            }
            if self.peers[k].face.contains_pending_request(&fp) >= MATCH_THRESHOLD {
                proof {
                    lemma_waiting(self.peers@, hbfi, self.peers@.len() as int);
                    let all = waiting(self.peers@, hbfi, self.peers@.len() as int);
                    assert(all.contains(k as int));
                }
                return Decision::Dropped(Reason::InFlight);
            }
            k += 1;
        }
        let mut work = Broker::new(self.policy);
        core::mem::swap(self, &mut work);
        let Broker { peers, bayes, policy } = work;
        let mut peers = peers;
        let mut bayes = bayes;
        let ghost before = peers@;
        let ghost model = bayes@;
        let total = bayes.total();
        if total <= i64::MAX - TRAIN {
            bayes.train(&hbfi, &ilp.link_id);
        }
        assert(bayes@.total() > 0);
        let mut packets: Vec<InterLinkPacket> = Vec::new();
        let chosen = select(&peers, &bayes, policy, &hbfi, ilp.link_id.lookup_id);
        let ghost picked = chosen@.map_values(|c: usize| c as int);
        proof {
            lemma_selection(
                before,
                bayes@,
                policy,
                HBFIOnlyKeys(hbfi).stream(),
                ilp.link_id.lookup_id,
                picked,
            );
            assert forall|l: int| 0 <= l < chosen@.len() implies (#[trigger] chosen@[l])
                < before.len() && before[chosen@[l] as int].id() != ilp.link_id.lookup_id by {
                assert(picked[l] == chosen@[l]);
            }
            assert forall|l: int, m: int| 0 <= l < m < chosen@.len() implies (
            #[trigger] chosen@[l]) != (#[trigger] chosen@[m]) by {
                assert(picked[l] == chosen@[l]);
                assert(picked[m] == chosen@[m]);
            }
        }
        peers[ingress].face.create_pending_request(&fp);
        let ghost middle = peers@;
        let mut j: usize = 0;
        while j < chosen.len()
            invariant
                j <= chosen@.len(),
                peers@.len() == before.len(),
                distinct(before),
                fp.deep_view() == hbfi.sdr_rows(),
                crate::packets::sdri_in_range(fp.deep_view()),
                picked == chosen@.map_values(|c: usize| c as int),
                forall|l: int|
                    0 <= l < chosen@.len() ==> (#[trigger] chosen@[l]) < before.len()
                        && before[chosen@[l] as int].id() != ilp.link_id.lookup_id,
                forall|l: int, m: int|
                    0 <= l < m < chosen@.len() ==> (#[trigger] chosen@[l]) != (
                    #[trigger] chosen@[m]),
                packets@.len() == j,
                forall|l: int|
                    0 <= l < j ==> #[trigger] packets@[l] == (InterLinkPacket {
                        link_id: before[chosen@[l] as int].link_id,
                        lp: ilp.lp,
                    }),
                forall|i: int|
                    0 <= i < before.len() ==> asked(
                        #[trigger] peers@[i],
                        before[i],
                        hbfi,
                        i == ingress,
                        picked.take(j as int).contains(i),
                    ),
            decreases chosen@.len() - j,
        {
            let at = chosen[j];
            let ghost during = peers@;
            packets.push(InterLinkPacket::new(peers[at].link_id, ilp.link_packet()));
            peers[at].face.create_forwarded_request(&fp);
            proof {
                let now = picked.take(j + 1);
                let was = picked.take(j as int);
                assert(now =~= was.push(at as int));
                assert forall|i: int| 0 <= i < before.len() implies asked(
                    #[trigger] peers@[i],
                    before[i],
                    hbfi,
                    i == ingress,
                    now.contains(i),
                ) by {
                    assert(asked(during[i], before[i], hbfi, i == ingress, was.contains(i)));
                    if was.contains(i) {
                        let l = choose|l: int| 0 <= l < was.len() && was[l] == i;
                        assert(now[l] == i);
                        assert(chosen@[l] != chosen@[j as int]);
                    }
                    if now.contains(i) && !was.contains(i) {
                        let l = choose|l: int| 0 <= l < now.len() && now[l] == i;
                        if l < was.len() {
                            assert(was[l] == i);
                        }
                    }
                    if i == at {
                        assert(now[j as int] == at);
                    }
                }
            }
            j += 1;
        }
        proof {
            assert(picked.take(chosen@.len() as int) =~= picked);
            let out = egress(before, packets@);
            assert(out.len() == picked.len());
            assert forall|l: int| 0 <= l < picked.len() implies out[l] == picked[l] by {
                lemma_place_unique(before, chosen@[l] as int);
            }
            assert(out =~= picked);
            assert forall|i: int, l: int| 0 <= i < l < peers@.len() implies (
            #[trigger] peers@[i]).id() != (#[trigger] peers@[l]).id() by {
                assert(asked(peers@[i], before[i], hbfi, i == ingress, picked.contains(i)));
                assert(asked(peers@[l], before[l], hbfi, l == ingress, picked.contains(l)));
            }
            assert forall|i: int| 0 <= i < peers@.len() implies bayes@.counts.dom().contains(
                (#[trigger] peers@[i]).id(),
            ) by {
                assert(asked(peers@[i], before[i], hbfi, i == ingress, picked.contains(i)));
                assert(model.counts.dom().contains(before[i].id()));
            }
        }
        *self = Broker { peers, bayes, policy };
        Decision::Forwarded(packets)
    }

    /// Decides what to do with a packet that came in: a request as
    /// `on_request` says, a response as `on_response` says.
    pub fn route(&mut self, ilp: &InterLinkPacket, cached: Option<&Vec<u8>>) -> (decision: Decision)
        ensures
            final(self).policy() == old(self).policy(),
            final(self).peers().len() == old(self).peers().len(),
            ilp.lp.nw is Request ==> requested(
                old(self).peers(),
                old(self).model(),
                old(self).policy(),
                final(self).peers(),
                final(self).model(),
                *ilp,
                held_bytes(cached),
                decision,
            ),
            ilp.lp.nw is Response ==> responded(
                old(self).peers(),
                old(self).model(),
                final(self).peers(),
                final(self).model(),
                *ilp,
                decision,
            ),
    {
        match ilp.narrow_waist() {
            NarrowWaistPacket::Request { .. } => self.on_request(ilp, cached),
            NarrowWaistPacket::Response { .. } => self.on_response(ilp),
        }
    }
}

fn held_response(cached: Option<&Vec<u8>>, hbfi: &HBFI) -> (held: Option<NarrowWaistPacket>)
    ensures
        held == cached_response(held_bytes(cached), *hbfi),
{
    match cached {
        Some(bytes) => {
            match NarrowWaistPacket::from_bytes(bytes.as_slice()) {
                Some(held) => {
                    let answers = match held {
                        NarrowWaistPacket::Response { hbfi: of, .. } => of.same(hbfi),
                        NarrowWaistPacket::Request { .. } => false,
                    };
                    if answers {
                        Some(held)
                    } else {
                        None
                    }
                },
                None => None,
            }
        },
        None => None,
    }
}

/// The places in `others` rise.
pub proof fn lemma_others_rise(peers: Seq<Peer>, ingress: u32, upto: int)
    requires
        0 <= upto <= peers.len(),
    ensures
        forall|i: int, j: int|
            0 <= i < j < others(peers, ingress, upto).len() ==> others(peers, ingress, upto)[i]
                < others(peers, ingress, upto)[j],
    decreases upto,
{
    if upto > 0 {
        lemma_others_rise(peers, ingress, upto - 1);
        lemma_others(peers, ingress, upto - 1);
        let before = others(peers, ingress, upto - 1);
        let now = others(peers, ingress, upto);
        assert forall|i: int, j: int| 0 <= i < j < now.len() implies now[i] < now[j] by {
            assert(now[i] == before[i]);
            if j < before.len() {
                assert(now[j] == before[j]);
            } else {
                assert(before[i] < upto - 1);
            }
        }
    }
}

/// No peer is chosen twice, and every peer chosen is one of the peers.
pub proof fn lemma_selection(
    peers: Seq<Peer>,
    model: BayesView,
    policy: Policy,
    stream: HBFI,
    ingress: u32,
    chosen: Seq<int>,
)
    requires
        is_selection(peers, model, policy, stream, ingress, chosen),
    ensures
        forall|j: int|
            0 <= j < chosen.len() ==> 0 <= (#[trigger] chosen[j]) < peers.len()
                && peers[chosen[j]].id() != ingress,
        forall|j: int, k: int| 0 <= j < k < chosen.len() ==> chosen[j] != chosen[k],
{
    if !has_evidence(peers, model, stream, ingress) {
        lemma_others_rise(peers, ingress, peers.len() as int);
    } else {
        assert forall|j: int, k: int| 0 <= j < k < chosen.len() implies chosen[j]
            != chosen[k] by {
            assert(outranks(model, stream, peers[chosen[j]].id(), peers[chosen[k]].id()));
        }
    }
}

/// The places of the peers that the packets go out to.
pub open spec fn egress(peers: Seq<Peer>, packets: Seq<InterLinkPacket>) -> Seq<int> {
    packets.map_values(|p: InterLinkPacket| place_of(peers, p.link_id.lookup_id))
}

} // verus!
