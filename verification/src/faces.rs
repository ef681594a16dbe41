//! Faces: what a node keeps for each of its links. A face remembers, in
//! sparse distributed representations, which requests are pending on the
//! link, which were forwarded over it, and which names responses arrived
//! for; the in-memory face also queues the packets that cross it.

use crate::identity::random_number;
use crate::packets::{sdri_in_range, Packet, Sdri, SDR_BITS};
use crate::sdr::{
    entries, hits, indexed, ones, partly_forgotten, percentage, SparseDistributedRepresentation,
};
use std::collections::VecDeque;
use vstd::prelude::*;

verus! {

/// A face that keeps its packets in memory.
pub struct Tcp {
    pub id: u32,
    pending_interest: SparseDistributedRepresentation,
    forwarding_hint: SparseDistributedRepresentation,
    interest_inbound: VecDeque<Packet>,
    interest_outbound: VecDeque<Packet>,
    data_inbound: VecDeque<Packet>,
    data_outbound: VecDeque<Packet>,
}

impl Tcp {
    /// The number of the face.
    pub closed spec fn number(&self) -> u32 {
        self.id
    }

    /// The bits under which the face remembers the interests pending.
    pub closed spec fn pending_interest(&self) -> Seq<bool> {
        self.pending_interest@
    }

    /// The bits under which the face remembers the names that data arrived
    /// for.
    pub closed spec fn forwarding_hint(&self) -> Seq<bool> {
        self.forwarding_hint@
    }

    /// The interests waiting to be received, the oldest first.
    pub closed spec fn interest_inbound(&self) -> Seq<Packet> {
        self.interest_inbound@
    }

    /// The interests sent downstream, the oldest first.
    pub closed spec fn interest_outbound(&self) -> Seq<Packet> {
        self.interest_outbound@
    }

    /// The data waiting to be received, the oldest first.
    pub closed spec fn data_inbound(&self) -> Seq<Packet> {
        self.data_inbound@
    }

    /// The data sent upstream, the oldest first.
    pub closed spec fn data_outbound(&self) -> Seq<Packet> {
        self.data_outbound@
    }

    /// Whether the face holds nothing: no bit is set and no packet queued.
    pub open spec fn is_fresh(&self) -> bool {
        &&& forall|i: int| 0 <= i < SDR_BITS ==> !self.pending_interest()[i]
        &&& forall|i: int| 0 <= i < SDR_BITS ==> !self.forwarding_hint()[i]
        &&& self.interest_inbound().len() == 0
        &&& self.interest_outbound().len() == 0
        &&& self.data_inbound().len() == 0
        &&& self.data_outbound().len() == 0
    }

    /// A fresh face with the number `id`.
    pub fn with_id(id: u32) -> (face: Tcp)
        ensures
            face.number() == id,
            face.is_fresh(),
    {
        Tcp {
            id,
            interest_inbound: VecDeque::new(),
            interest_outbound: VecDeque::new(),
            data_inbound: VecDeque::new(),
            data_outbound: VecDeque::new(),
            pending_interest: SparseDistributedRepresentation::new(),
            forwarding_hint: SparseDistributedRepresentation::new(),
        }
    }

    /// A fresh face with a random number.
    pub fn new() -> (face: Box<Tcp>)
        ensures
            face.is_fresh(),
    {
        Box::new(Tcp::with_id(random_number()))
    }

    pub fn id(&self) -> (id: u32)
        ensures
            id == self.number(),
    {
        self.id
    }

    /// Queues an interest to go downstream.
    pub fn send_interest_downstream(&mut self, interest: Packet)
        ensures
            final(self).interest_outbound() == old(self).interest_outbound().push(interest),
            final(self).number() == old(self).number(),
            final(self).pending_interest() == old(self).pending_interest(),
            final(self).forwarding_hint() == old(self).forwarding_hint(),
            final(self).interest_inbound() == old(self).interest_inbound(),
            final(self).data_inbound() == old(self).data_inbound(),
            final(self).data_outbound() == old(self).data_outbound(),
    {
        self.interest_outbound.push_back(interest);
    }

    /// Takes the oldest interest that came from upstream, if there is one.
    pub fn receive_upstream_interest(&mut self) -> (interest: Option<Packet>)
        ensures
            old(self).interest_inbound().len() == 0 ==> interest is None
                && final(self).interest_inbound() == old(self).interest_inbound(),
            old(self).interest_inbound().len() > 0 ==> interest == Some(
                old(self).interest_inbound()[0],
            ) && final(self).interest_inbound() == old(self).interest_inbound().skip(1),
            final(self).number() == old(self).number(),
            final(self).pending_interest() == old(self).pending_interest(),
            final(self).forwarding_hint() == old(self).forwarding_hint(),
            final(self).interest_outbound() == old(self).interest_outbound(),
            final(self).data_inbound() == old(self).data_inbound(),
            final(self).data_outbound() == old(self).data_outbound(),
    {
        let interest = self.interest_inbound.pop_front();
        proof {
            if old(self).interest_inbound@.len() > 0 {
                assert(self.interest_inbound@ =~= old(self).interest_inbound@.skip(1));
            }
        }
        interest
    }

    /// Queues data to go upstream.
    pub fn send_data_upstream(&mut self, data: Packet)
        ensures
            final(self).data_outbound() == old(self).data_outbound().push(data),
            final(self).number() == old(self).number(),
            final(self).pending_interest() == old(self).pending_interest(),
            final(self).forwarding_hint() == old(self).forwarding_hint(),
            final(self).interest_inbound() == old(self).interest_inbound(),
            final(self).interest_outbound() == old(self).interest_outbound(),
            final(self).data_inbound() == old(self).data_inbound(),
    {
        self.data_outbound.push_back(data);
    }

    /// Takes the oldest data that came from downstream, if there is any.
    pub fn receive_downstream_data(&mut self) -> (data: Option<Packet>)
        ensures
            old(self).data_inbound().len() == 0 ==> data is None && final(self).data_inbound()
                == old(self).data_inbound(),
            old(self).data_inbound().len() > 0 ==> data == Some(old(self).data_inbound()[0])
                && final(self).data_inbound() == old(self).data_inbound().skip(1),
            final(self).number() == old(self).number(),
            final(self).pending_interest() == old(self).pending_interest(),
            final(self).forwarding_hint() == old(self).forwarding_hint(),
            final(self).interest_inbound() == old(self).interest_inbound(),
            final(self).interest_outbound() == old(self).interest_outbound(),
            final(self).data_outbound() == old(self).data_outbound(),
    {
        let data = self.data_inbound.pop_front();
        proof {
            if old(self).data_inbound@.len() > 0 {
                assert(self.data_inbound@ =~= old(self).data_inbound@.skip(1));
            }
        }
        data
    }

    /// Remembers that the interest is pending on this face.
    pub fn create_pending_interest(&mut self, packet: Packet)
        requires
            sdri_in_range(packet@.sdri()),
        ensures
            final(self).number() == old(self).number(),
            forall|i: int|
                0 <= i < SDR_BITS ==> #[trigger] final(self).pending_interest()[i] == (old(
                    self,
                ).pending_interest()[i] || indexed(packet@.sdri(), i)),
            final(self).forwarding_hint() == old(self).forwarding_hint(),
    {
        self.pending_interest.insert(packet);
    }

    /// How much of the interest the face remembers as pending, as a
    /// percentage.
    pub fn contains_pending_interest(&mut self, interest: Packet) -> (percent: u8)
        requires
            sdri_in_range(interest@.sdri()),
            hits(old(self).pending_interest(), interest@.sdri()) <= u32::MAX,
        ensures
            final(self).number() == old(self).number(),
            final(self).pending_interest() == old(self).pending_interest(),
            final(self).forwarding_hint() == old(self).forwarding_hint(),
            percent == percentage(
                hits(old(self).pending_interest(), interest@.sdri()),
                entries(interest@.sdri()),
            ),
    {
        self.pending_interest.contains(interest)
    }

    /// Forgets that the interest is pending on this face.
    pub fn delete_pending_interest(&mut self, interest: Packet)
        requires
            sdri_in_range(interest@.sdri()),
        ensures
            final(self).number() == old(self).number(),
            forall|i: int|
                0 <= i < SDR_BITS ==> #[trigger] final(self).pending_interest()[i] == (old(
                    self,
                ).pending_interest()[i] && !indexed(interest@.sdri(), i)),
            final(self).forwarding_hint() == old(self).forwarding_hint(),
    {
        self.pending_interest.delete(interest);
    }

    /// How much of the interest the face remembers data to have arrived for,
    /// as a percentage.
    pub fn contains_forwarding_hint(&mut self, interest: Packet) -> (percent: u8)
        requires
            sdri_in_range(interest@.sdri()),
            hits(old(self).forwarding_hint(), interest@.sdri()) <= u32::MAX,
        ensures
            final(self).number() == old(self).number(),
            final(self).pending_interest() == old(self).pending_interest(),
            final(self).forwarding_hint() == old(self).forwarding_hint(),
            percent == percentage(
                hits(old(self).forwarding_hint(), interest@.sdri()),
                entries(interest@.sdri()),
            ),
    {
        self.forwarding_hint.contains(interest)
    }

    /// Remembers that data arrived on this face for the name of `data`.
    pub fn create_forwarding_hint(&mut self, data: Packet)
        requires
            sdri_in_range(data@.sdri()),
        ensures
            final(self).number() == old(self).number(),
            forall|i: int|
                0 <= i < SDR_BITS ==> #[trigger] final(self).forwarding_hint()[i] == (old(
                    self,
                ).forwarding_hint()[i] || indexed(data@.sdri(), i)),
            final(self).pending_interest() == old(self).pending_interest(),
    {
        self.forwarding_hint.insert(data);
    }

    /// How full the forwarding hint is, as a percentage of its bits.
    pub fn forwarding_hint_decoherence(&mut self) -> (percent: u8)
        ensures
            final(self).number() == old(self).number(),
            final(self).pending_interest() == old(self).pending_interest(),
            final(self).forwarding_hint() == old(self).forwarding_hint(),
            percent == percentage(
                ones(old(self).forwarding_hint(), SDR_BITS as int),
                SDR_BITS as nat,
            ),
    {
        self.forwarding_hint.decoherence()
    }

    /// Makes the forwarding hint forget part of what it holds: the bits that
    /// one round of random draws names are cleared, and no others. No bit is
    /// set by this.
    pub fn restore_forwarding_hint(&mut self)
        ensures
            final(self).number() == old(self).number(),
            partly_forgotten(old(self).forwarding_hint(), final(self).forwarding_hint()),
            forall|i: int|
                0 <= i < SDR_BITS && final(self).forwarding_hint()[i] ==> old(
                    self,
                ).forwarding_hint()[i],
            final(self).pending_interest() == old(self).pending_interest(),
    {
        self.forwarding_hint.restore();
    }
}

/// What a node keeps for a link over UDP: the number of the face, and what
/// it remembers of the requests and responses that crossed it.
pub struct Udp {
    pub id: usize,
    pending_request: SparseDistributedRepresentation,
    forwarding_hint: SparseDistributedRepresentation,
    forwarded_request: SparseDistributedRepresentation,
}

impl Udp {
    /// The number of the face.
    pub closed spec fn number(&self) -> usize {
        self.id
    }

    /// The bits under which the face remembers the requests pending.
    pub closed spec fn pending_request(&self) -> Seq<bool> {
        self.pending_request@
    }

    /// The bits under which the face remembers the names that responses
    /// arrived for.
    pub closed spec fn forwarding_hint(&self) -> Seq<bool> {
        self.forwarding_hint@
    }

    /// The bits under which the face remembers the requests forwarded.
    pub closed spec fn forwarded_request(&self) -> Seq<bool> {
        self.forwarded_request@
    }

    /// A face with the number 0 that remembers nothing.
    pub fn new() -> (face: Box<Udp>)
        ensures
            face.number() == 0,
            forall|i: int| 0 <= i < SDR_BITS ==> !face.pending_request()[i],
            forall|i: int| 0 <= i < SDR_BITS ==> !face.forwarding_hint()[i],
            forall|i: int| 0 <= i < SDR_BITS ==> !face.forwarded_request()[i],
    {
        Box::new(
            Udp {
                id: 0,
                pending_request: SparseDistributedRepresentation::new(),
                forwarding_hint: SparseDistributedRepresentation::new(),
                forwarded_request: SparseDistributedRepresentation::new(),
            },
        )
    }

    pub fn set_id(&mut self, face_id: usize)
        ensures
            final(self).number() == face_id,
            final(self).pending_request() == old(self).pending_request(),
            final(self).forwarding_hint() == old(self).forwarding_hint(),
            final(self).forwarded_request() == old(self).forwarded_request(),
    {
        self.id = face_id;
    }

    pub fn get_id(&self) -> (id: usize)
        ensures
            id == self.number(),
    {
        self.id
    }

    /// Remembers that the request with the index `packet_sdri` is pending on
    /// this face.
    pub fn create_pending_request(&mut self, packet_sdri: &Sdri)
        requires
            sdri_in_range(packet_sdri.deep_view()),
        ensures
            final(self).number() == old(self).number(),
            forall|i: int|
                0 <= i < SDR_BITS ==> #[trigger] final(self).pending_request()[i] == (old(
                    self,
                ).pending_request()[i] || indexed(packet_sdri.deep_view(), i)),
            final(self).forwarding_hint() == old(self).forwarding_hint(),
            final(self).forwarded_request() == old(self).forwarded_request(),
    {
        self.pending_request.insert_index(packet_sdri);
    }

    /// How much of the request the face remembers as pending, as a
    /// percentage.
    pub fn contains_pending_request(&self, request_sdri: &Sdri) -> (percent: u8)
        requires
            sdri_in_range(request_sdri.deep_view()),
            hits(self.pending_request(), request_sdri.deep_view()) <= u32::MAX,
        ensures
            percent == percentage(
                hits(self.pending_request(), request_sdri.deep_view()),
                entries(request_sdri.deep_view()),
            ),
    {
        self.pending_request.contains_index(request_sdri)
    }

    /// Forgets that the request is pending on this face.
    pub fn delete_pending_request(&mut self, request_sdri: &Sdri)
        requires
            sdri_in_range(request_sdri.deep_view()),
        ensures
            final(self).number() == old(self).number(),
            forall|i: int|
                0 <= i < SDR_BITS ==> #[trigger] final(self).pending_request()[i] == (old(
                    self,
                ).pending_request()[i] && !indexed(request_sdri.deep_view(), i)),
            final(self).forwarding_hint() == old(self).forwarding_hint(),
            final(self).forwarded_request() == old(self).forwarded_request(),
    {
        self.pending_request.delete_index(request_sdri);
    }

    /// How full the pending requests are, as a percentage of their bits.
    pub fn pending_request_decoherence(&mut self) -> (percent: u8)
        ensures
            final(self).number() == old(self).number(),
            final(self).pending_request() == old(self).pending_request(),
            final(self).forwarding_hint() == old(self).forwarding_hint(),
            final(self).forwarded_request() == old(self).forwarded_request(),
            percent == percentage(
                ones(old(self).pending_request(), SDR_BITS as int),
                SDR_BITS as nat,
            ),
    {
        self.pending_request.decoherence()
    }

    /// Makes the pending requests forget part of what they hold: the bits
    /// that one round of random draws names are cleared, and no others. No bit
    /// is set by this.
    pub fn partially_forget_pending_request(&mut self)
        ensures
            final(self).number() == old(self).number(),
            partly_forgotten(old(self).pending_request(), final(self).pending_request()),
            forall|i: int|
                0 <= i < SDR_BITS && final(self).pending_request()[i] ==> old(
                    self,
                ).pending_request()[i],
            final(self).forwarding_hint() == old(self).forwarding_hint(),
            final(self).forwarded_request() == old(self).forwarded_request(),
    {
        self.pending_request.partially_forget();
    }

    /// Remembers that the request with the index `packet_sdri` was forwarded
    /// over this face.
    pub fn create_forwarded_request(&mut self, packet_sdri: &Sdri)
        requires
            sdri_in_range(packet_sdri.deep_view()),
        ensures
            final(self).number() == old(self).number(),
            forall|i: int|
                0 <= i < SDR_BITS ==> #[trigger] final(self).forwarded_request()[i] == (old(
                    self,
                ).forwarded_request()[i] || indexed(packet_sdri.deep_view(), i)),
            final(self).pending_request() == old(self).pending_request(),
            final(self).forwarding_hint() == old(self).forwarding_hint(),
    {
        self.forwarded_request.insert_index(packet_sdri);
    }

    /// How much of the request the face remembers as forwarded, as a
    /// percentage.
    pub fn contains_forwarded_request(&self, request_sdri: &Sdri) -> (percent: u8)
        requires
            sdri_in_range(request_sdri.deep_view()),
            hits(self.forwarded_request(), request_sdri.deep_view()) <= u32::MAX,
        ensures
            percent == percentage(
                hits(self.forwarded_request(), request_sdri.deep_view()),
                entries(request_sdri.deep_view()),
            ),
    {
        self.forwarded_request.contains_index(request_sdri)
    }

    /// Forgets that the request was forwarded over this face.
    pub fn delete_forwarded_request(&mut self, request_sdri: &Sdri)
        requires
            sdri_in_range(request_sdri.deep_view()),
        ensures
            final(self).number() == old(self).number(),
            forall|i: int|
                0 <= i < SDR_BITS ==> #[trigger] final(self).forwarded_request()[i] == (old(
                    self,
                ).forwarded_request()[i] && !indexed(request_sdri.deep_view(), i)),
            final(self).pending_request() == old(self).pending_request(),
            final(self).forwarding_hint() == old(self).forwarding_hint(),
    {
        self.forwarded_request.delete_index(request_sdri);
    }

    /// How full the forwarded requests are, as a percentage of their bits.
    pub fn forwarded_request_decoherence(&mut self) -> (percent: u8)
        ensures
            final(self).number() == old(self).number(),
            final(self).pending_request() == old(self).pending_request(),
            final(self).forwarding_hint() == old(self).forwarding_hint(),
            final(self).forwarded_request() == old(self).forwarded_request(),
            percent == percentage(
                ones(old(self).forwarded_request(), SDR_BITS as int),
                SDR_BITS as nat,
            ),
    {
        self.forwarded_request.decoherence()
    }

    /// Makes the forwarded requests forget part of what they hold: the bits
    /// that one round of random draws names are cleared, and no others. No bit
    /// is set by this.
    pub fn partially_forget_forwarded_request(&mut self)
        ensures
            final(self).number() == old(self).number(),
            partly_forgotten(old(self).forwarded_request(), final(self).forwarded_request()),
            forall|i: int|
                0 <= i < SDR_BITS && final(self).forwarded_request()[i] ==> old(
                    self,
                ).forwarded_request()[i],
            final(self).pending_request() == old(self).pending_request(),
            final(self).forwarding_hint() == old(self).forwarding_hint(),
    {
        self.forwarded_request.partially_forget();
    }

    /// Remembers that a response arrived on this face for the name with the
    /// index `data_sdri`.
    pub fn create_forwarding_hint(&mut self, data_sdri: &Sdri)
        requires
            sdri_in_range(data_sdri.deep_view()),
        ensures
            final(self).number() == old(self).number(),
            forall|i: int|
                0 <= i < SDR_BITS ==> #[trigger] final(self).forwarding_hint()[i] == (old(
                    self,
                ).forwarding_hint()[i] || indexed(data_sdri.deep_view(), i)),
            final(self).pending_request() == old(self).pending_request(),
            final(self).forwarded_request() == old(self).forwarded_request(),
    {
        self.forwarding_hint.insert_index(data_sdri);
    }

    /// How much of the request the face remembers responses to have arrived
    /// for, as a percentage.
    pub fn contains_forwarding_hint(&self, request_sdri: &Sdri) -> (percent: u8)
        requires
            sdri_in_range(request_sdri.deep_view()),
            hits(self.forwarding_hint(), request_sdri.deep_view()) <= u32::MAX,
        ensures
            percent == percentage(
                hits(self.forwarding_hint(), request_sdri.deep_view()),
                entries(request_sdri.deep_view()),
            ),
    {
        self.forwarding_hint.contains_index(request_sdri)
    }

    /// How full the forwarding hint is, as a percentage of its bits.
    pub fn forwarding_hint_decoherence(&mut self) -> (percent: u8)
        ensures
            final(self).number() == old(self).number(),
            final(self).pending_request() == old(self).pending_request(),
            final(self).forwarding_hint() == old(self).forwarding_hint(),
            final(self).forwarded_request() == old(self).forwarded_request(),
            percent == percentage(
                ones(old(self).forwarding_hint(), SDR_BITS as int),
                SDR_BITS as nat,
            ),
    {
        self.forwarding_hint.decoherence()
    }

    /// Makes the forwarding hint forget part of what it holds: the bits that
    /// one round of random draws names are cleared, and no others. No bit is
    /// set by this.
    pub fn partially_forget_forwarding_hint(&mut self)
        ensures
            final(self).number() == old(self).number(),
            partly_forgotten(old(self).forwarding_hint(), final(self).forwarding_hint()),
            forall|i: int|
                0 <= i < SDR_BITS && final(self).forwarding_hint()[i] ==> old(
                    self,
                ).forwarding_hint()[i],
            final(self).pending_request() == old(self).pending_request(),
            final(self).forwarded_request() == old(self).forwarded_request(),
    {
        self.forwarding_hint.partially_forget();
    }
}

} // verus!
