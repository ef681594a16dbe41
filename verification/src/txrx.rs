//! The endpoint's five delivery disciplines over one stream of chunks.
//!
//! The endpoint asks for the chunks of a stream one offset at a time. What it
//! decides between two waits is written here as a transition on the state of
//! a run: which offset to ask for next, whether a response is delivered, and
//! when the run is over. Sending and waiting is left to the caller, which
//! hands back what the wait brought.

use crate::congestion::{doubled, elapsed, nonce_key, settled, started, CongestionControl, Entry};
use crate::error::PacketError;
use crate::hbfi::HBFI;
use crate::identity::{identity_public, PrivateIdentity};
use crate::link::{InterLinkPacket, LinkId, LinkPacket};
use crate::narrow_waist::NarrowWaistPacket;
use vstd::prelude::*;

verus! {

#[derive(Clone, Copy, PartialEq, Eq, Debug, Structural)]
pub enum Discipline {
    /// Chunks are delivered as they arrive; a wait that runs out moves on.
    UnreliableUnordered,
    /// Chunks older than the one asked for are dropped, a newer one moves the
    /// run ahead; a wait that runs out moves on.
    UnreliableSequenced,
    /// Chunks are delivered as they arrive; a wait that runs out asks again.
    ReliableUnordered,
    /// Only the chunk asked for is delivered; anything else asks again.
    ReliableOrdered,
    /// As unreliable-sequenced, but a wait that runs out asks again.
    ReliableSequenced,
}

impl Discipline {
    /// Whether a wait that brought no chunk asks for the same offset again.
    pub open spec fn retransmits(self) -> bool {
        self == Discipline::ReliableUnordered || self == Discipline::ReliableOrdered || self
            == Discipline::ReliableSequenced
    }

    /// Whether a newer chunk than the one asked for moves the run ahead.
    pub open spec fn sequenced(self) -> bool {
        self == Discipline::UnreliableSequenced || self == Discipline::ReliableSequenced
    }

    pub fn is_reliable(&self) -> (yes: bool)
        ensures
            yes == self.retransmits(),
    {
        match self {
            Discipline::ReliableUnordered => true,
            Discipline::ReliableOrdered => true,
            Discipline::ReliableSequenced => true,
            _ => false,
        }
    }

    pub fn is_sequenced(&self) -> (yes: bool)
        ensures
            yes == self.sequenced(),
    {
        match self {
            Discipline::UnreliableSequenced => true,
            Discipline::ReliableSequenced => true,
            _ => false,
        }
    }
}

/// The state of a run: the stream and the offsets asked for, the offset to
/// ask for next, and what was delivered so far, each chunk with its offset.
pub struct Run {
    pub discipline: Discipline,
    pub hbfi: HBFI,
    pub start: u64,
    pub end: u64,
    pub counter: u64,
    pub done: bool,
    pub failed: Option<PacketError>,
    pub chunks: Vec<Vec<u8>>,
    pub offsets: Vec<u64>,
}

pub struct RunView {
    pub discipline: Discipline,
    pub hbfi: HBFI,
    pub start: u64,
    pub end: u64,
    pub counter: u64,
    pub done: bool,
    pub failed: Option<PacketError>,
    pub chunks: Seq<Seq<u8>>,
    pub offsets: Seq<u64>,
}

impl View for Run {
    type V = RunView;

    open spec fn view(&self) -> RunView {
        RunView {
            discipline: self.discipline,
            hbfi: self.hbfi,
            start: self.start,
            end: self.end,
            counter: self.counter,
            done: self.done,
            failed: self.failed,
            chunks: self.chunks.deep_view(),
            offsets: self.offsets@,
        }
    }
}

/// What a wait brought: a packet, or nothing before the wait ran out.
pub enum Event {
    Received(InterLinkPacket),
    TimedOut,
}

impl Event {
    /// The narrow-waist packet that arrived, if any.
    pub open spec fn packet(self) -> Option<NarrowWaistPacket> {
        match self {
            Event::Received(ilp) => Some(ilp.lp.nw),
            Event::TimedOut => None,
        }
    }
}

/// The key that a response under `hbfi` is read with: the endpoint's own
/// where the index names a requester, none otherwise.
pub open spec fn reader_for(hbfi: HBFI, sid: PrivateIdentity) -> Option<PrivateIdentity> {
    if hbfi.request_pid is Some {
        Some(sid)
    } else {
        None
    }
}

impl RunView {
    /// A run over the offsets `start..=end` of the stream `hbfi`. Where
    /// `start` is beyond `end` there is nothing to ask for.
    pub open spec fn begin(discipline: Discipline, hbfi: HBFI, start: u64, end: u64) -> RunView {
        RunView {
            discipline,
            hbfi,
            start,
            end,
            counter: start,
            done: start > end,
            failed: None,
            chunks: Seq::empty(),
            offsets: Seq::empty(),
        }
    }

    /// The run one offset further, or over where the last offset was reached.
    pub open spec fn advanced(self) -> RunView {
        if self.counter >= self.end {
            RunView { done: true, ..self }
        } else {
            RunView { counter: (self.counter + 1) as u64, ..self }
        }
    }

    /// The run after a wait that brought no chunk: a reliable discipline asks
    /// for the same offset again, an unreliable one moves on.
    pub open spec fn missed(self) -> RunView {
        if self.done || self.discipline.retransmits() {
            self
        } else {
            self.advanced()
        }
    }

    /// Whether a response for offset `ost` is delivered: any under an
    /// unordered discipline, none older than the offset asked for under a
    /// sequenced one, only the offset asked for under the ordered one.
    pub open spec fn accepts(self, ost: u64) -> bool {
        &&& !self.done
        &&& self.discipline.sequenced() ==> self.counter <= ost
        &&& self.discipline == Discipline::ReliableOrdered ==> ost == self.counter
    }

    /// The run after `chunk` was delivered for offset `ost`: the chunk is the
    /// last one delivered, and the run goes on behind it; a sequenced
    /// discipline jumps to `ost` and goes on behind it, which ends the run
    /// where `ost` is the last offset or beyond it.
    pub open spec fn delivered(self, ost: u64, chunk: Seq<u8>) -> RunView {
        RunView {
            counter: if self.discipline.sequenced() {
                ost
            } else {
                self.counter
            },
            chunks: self.chunks.push(chunk),
            offsets: self.offsets.push(ost),
            ..self
        }.advanced()
    }

    /// The run given up with the error `e`.
    pub open spec fn failed_with(self, e: PacketError) -> RunView {
        RunView { done: true, failed: Some(e), ..self }
    }

    /// The run after a wait that brought `packet`, read with the endpoint's
    /// private identity `sid`.
    ///
    /// Nothing, a request, or a response that the discipline does not accept
    /// count as a miss. An accepted response is verified and, where sealed,
    /// decrypted: its payload is delivered, or the run is given up with the
    /// error that reading it gave.
    pub open spec fn settled(self, packet: Option<NarrowWaistPacket>, sid: PrivateIdentity) -> RunView {
        match packet {
            Some(nw) => {
                if nw is Response && self.accepts(nw.hbfi_spec().ost) {
                    match nw.data_spec(reader_for(nw.hbfi_spec(), sid)) {
                        Ok(chunk) => self.delivered(nw.hbfi_spec().ost, chunk),
                        Err(e) => self.failed_with(e),
                    }
                } else {
                    self.missed()
                }
            },
            None => self.missed(),
        }
    }

    /// What holds of every run from its beginning on. As many offsets as
    /// chunks were delivered, and until the run is over the offset asked for
    /// lies in `start..=end`. Under a sequenced discipline the offsets
    /// delivered rise strictly, from `start` on and below the offset asked
    /// for. Under the ordered discipline they are `start`, `start + 1` and so
    /// on without a gap, up to the offset asked for, and in a run that came
    /// to its end without an error up to `end`. Under the reliable unordered
    /// discipline one chunk was delivered for each offset asked for so far,
    /// under the unreliable one at most one.
    pub open spec fn wf(self) -> bool {
        &&& self.chunks.len() == self.offsets.len()
        &&& self.failed is Some ==> self.done
        &&& self.start <= self.counter
        &&& !self.done ==> self.counter <= self.end
        &&& self.discipline.sequenced() ==> {
            &&& forall|i: int, j: int|
                0 <= i < j < self.offsets.len() ==> self.offsets[i] < self.offsets[j]
            &&& forall|i: int|
                0 <= i < self.offsets.len() ==> self.start <= #[trigger] self.offsets[i]
            &&& !self.done ==> forall|i: int|
                0 <= i < self.offsets.len() ==> #[trigger] self.offsets[i] < self.counter
            &&& self.done ==> forall|i: int|
                0 <= i < self.offsets.len() ==> #[trigger] self.offsets[i] <= self.counter
        }
        &&& self.discipline == Discipline::ReliableOrdered ==> {
            &&& forall|i: int|
                0 <= i < self.offsets.len() ==> #[trigger] self.offsets[i] == self.start + i
            &&& !self.done ==> self.counter == self.start + self.offsets.len()
            &&& self.done && self.failed is None && self.start <= self.end ==> self.offsets.len()
                == self.end - self.start + 1
            &&& self.done && self.start > self.end ==> self.offsets.len() == 0
        }
        &&& self.discipline == Discipline::ReliableUnordered ==> {
            &&& !self.done ==> self.offsets.len() == self.counter - self.start
            &&& self.done && self.failed is None && self.start <= self.end ==> self.offsets.len()
                == self.end - self.start + 1
            &&& self.start > self.end ==> self.offsets.len() == 0
        }
        &&& self.discipline == Discipline::UnreliableUnordered ==> {
            &&& !self.done ==> self.offsets.len() <= self.counter - self.start
            &&& self.done && self.start <= self.end ==> self.offsets.len() <= self.end
                - self.start + 1
            &&& self.start > self.end ==> self.offsets.len() == 0
        }
    }
}

/// A run is well formed at its beginning.
pub proof fn lemma_begin_wf(discipline: Discipline, hbfi: HBFI, start: u64, end: u64)
    ensures
        RunView::begin(discipline, hbfi, start, end).wf(),
{
}

/// Whatever a wait brings, a well-formed run stays well formed.
pub proof fn lemma_settled_wf(run: RunView, packet: Option<NarrowWaistPacket>, sid: PrivateIdentity)
    requires
        run.wf(),
    ensures
        run.settled(packet, sid).wf(),
{
    let next = run.settled(packet, sid);
    match packet {
        Some(nw) => {
            if nw is Response && run.accepts(nw.hbfi_spec().ost) {
                match nw.data_spec(reader_for(nw.hbfi_spec(), sid)) {
                    Ok(chunk) => {
                        lemma_delivered_wf(run, nw.hbfi_spec().ost, chunk);
                    },
                    Err(e) => {},
                }
            }
        },
        None => {},
    }
}

/// Delivering a chunk that the discipline accepts keeps a run well formed.
pub proof fn lemma_delivered_wf(run: RunView, ost: u64, chunk: Seq<u8>)
    requires
        run.wf(),
        run.accepts(ost),
    ensures
        run.delivered(ost, chunk).wf(),
{
    let next = run.delivered(ost, chunk);
    assert(next.offsets == run.offsets.push(ost));
    if run.discipline.sequenced() {
        assert forall|i: int, j: int| 0 <= i < j < next.offsets.len() implies next.offsets[i]
            < next.offsets[j] by {
            if j == run.offsets.len() {
                assert(run.offsets[i] < run.counter);
            }
        }
    }
}

/// A run under the reliable-ordered discipline that came to its end without
/// an error delivered the chunks of exactly the offsets `start`, `start + 1`,
/// up to `end`, in this order.
pub proof fn lemma_reliable_ordered_is_complete(run: RunView)
    requires
        run.wf(),
        run.discipline == Discipline::ReliableOrdered,
        run.done,
        run.failed is None,
        run.start <= run.end,
    ensures
        run.offsets == Seq::new(
            (run.end - run.start + 1) as nat,
            |i: int| (run.start + i) as u64,
        ),
        run.chunks.len() == run.end - run.start + 1,
{
    assert(run.offsets =~= Seq::new(
        (run.end - run.start + 1) as nat,
        |i: int| (run.start + i) as u64,
    ));
}

/// A run under the reliable-unordered discipline that came to its end
/// without an error delivered one chunk for each of the offsets `start` to
/// `end`.
pub proof fn lemma_reliable_unordered_is_complete(run: RunView)
    requires
        run.wf(),
        run.discipline == Discipline::ReliableUnordered,
        run.done,
        run.failed is None,
        run.start <= run.end,
    ensures
        run.chunks.len() == run.end - run.start + 1,
{
}

/// Under a sequenced discipline the offsets of the chunks delivered rise
/// strictly, and none is older than the first offset asked for.
pub proof fn lemma_sequenced_offsets_rise(run: RunView, i: int, j: int)
    requires
        run.wf(),
        run.discipline.sequenced(),
        0 <= i < j < run.offsets.len(),
    ensures
        run.start <= run.offsets[i] < run.offsets[j],
{
}

impl Run {
    /// Begins a run over the offsets `start..=end` of the stream `hbfi`.
    pub fn begin(discipline: Discipline, hbfi: HBFI, start: u64, end: u64) -> (run: Run)
        ensures
            run@ == RunView::begin(discipline, hbfi, start, end),
            run@.wf(),
    {
        let run = Run {
            discipline,
            hbfi,
            start,
            end,
            counter: start,
            done: start > end,
            failed: None,
            chunks: Vec::new(),
            offsets: Vec::new(),
        };
        assert(run.chunks.deep_view() =~= Seq::<Seq<u8>>::empty());
        run
    }

    fn advance(&mut self)
        ensures
            final(self)@ == old(self)@.advanced(),
    {
        if self.counter >= self.end {
            self.done = true;
        } else {
            self.counter = self.counter + 1;
        }
    }

    /// Takes note of a wait that brought no chunk.
    pub fn miss(&mut self)
        ensures
            final(self)@ == old(self)@.missed(),
    {
        if !self.done && !self.discipline.is_reliable() {
            self.advance();
        }
    }

    /// Whether a response for offset `ost` would be delivered.
    pub fn accepts(&self, ost: u64) -> (yes: bool)
        ensures
            yes == self@.accepts(ost),
    {
        if self.done {
            false
        } else if self.discipline.is_sequenced() {
            self.counter <= ost
        } else {
            match self.discipline {
                Discipline::ReliableOrdered => ost == self.counter,
                _ => true,
            }
        }
    }

    /// Delivers `chunk` for offset `ost`.
    pub fn deliver(&mut self, ost: u64, chunk: Vec<u8>)
        ensures
            final(self)@ == old(self)@.delivered(ost, chunk@),
    {
        if self.discipline.is_sequenced() {
            self.counter = ost;
        }
        self.chunks.push(chunk);
        self.offsets.push(ost);
        proof {
            let now = self.chunks.deep_view();
            let expected = old(self).chunks.deep_view().push(chunk@);
            assert(now.len() == expected.len());
            assert forall|i: int| 0 <= i < now.len() implies now[i] == expected[i] by {
                assert(now[i] == self.chunks@[i]@);
                if i < old(self).chunks@.len() {
                    assert(expected[i] == old(self).chunks@[i]@);
                }
            }
            assert(now =~= expected);
        }
        self.advance();
    }

    /// Gives the run up with the error `e`.
    pub fn fail(&mut self, e: PacketError)
        ensures
            final(self)@ == old(self)@.failed_with(e),
    {
        self.done = true;
        self.failed = Some(e);
    }

    /// Whether there is nothing more to ask for.
    pub fn is_done(&self) -> (done: bool)
        ensures
            done == self.done,
    {
        self.done
    }

    /// What the run brought: the chunks in the order of their delivery, or
    /// the error that the run was given up with.
    pub fn finish(self) -> (out: Result<Vec<Vec<u8>>, PacketError>)
        ensures
            match self.failed {
                Some(e) => out == Err::<Vec<Vec<u8>>, PacketError>(e),
                None => out matches Ok(chunks) && chunks.deep_view() == self@.chunks,
            },
    {
        match self.failed {
            Some(e) => Err(e),
            None => Ok(self.chunks),
        }
    }
}

/// The endpoint's side of a link: who it is, and the state of its timers.
pub struct TxRx {
    pub link_id: LinkId,
    pub protocol_sid: PrivateIdentity,
    pub cc: CongestionControl,
}

impl TxRx {
    pub fn new(link_id: LinkId, protocol_sid: PrivateIdentity) -> (txrx: TxRx)
        ensures
            txrx.link_id == link_id,
            txrx.protocol_sid == protocol_sid,
            txrx.cc@ == Seq::<Entry>::empty(),
    {
        TxRx { link_id, protocol_sid, cc: CongestionControl::new() }
    }

    /// Begins an unreliable-unordered run.
    pub fn unreliable_unordered_request(&self, hbfi: HBFI, start: u64, end: u64) -> (run: Run)
        ensures
            run@ == RunView::begin(Discipline::UnreliableUnordered, hbfi, start, end),
            run@.wf(),
    {
        Run::begin(Discipline::UnreliableUnordered, hbfi, start, end)
    }

    /// Begins an unreliable-sequenced run.
    pub fn unreliable_sequenced_request(&self, hbfi: HBFI, start: u64, end: u64) -> (run: Run)
        ensures
            run@ == RunView::begin(Discipline::UnreliableSequenced, hbfi, start, end),
            run@.wf(),
    {
        Run::begin(Discipline::UnreliableSequenced, hbfi, start, end)
    }

    /// Begins a reliable-unordered run.
    pub fn reliable_unordered_request(&self, hbfi: HBFI, start: u64, end: u64) -> (run: Run)
        ensures
            run@ == RunView::begin(Discipline::ReliableUnordered, hbfi, start, end),
            run@.wf(),
    {
        Run::begin(Discipline::ReliableUnordered, hbfi, start, end)
    }

    /// Begins a reliable-ordered run.
    pub fn reliable_ordered_request(&self, hbfi: HBFI, start: u64, end: u64) -> (run: Run)
        ensures
            run@ == RunView::begin(Discipline::ReliableOrdered, hbfi, start, end),
            run@.wf(),
    {
        Run::begin(Discipline::ReliableOrdered, hbfi, start, end)
    }

    /// Begins a reliable-sequenced run.
    pub fn reliable_sequenced_request(&self, hbfi: HBFI, start: u64, end: u64) -> (run: Run)
        ensures
            run@ == RunView::begin(Discipline::ReliableSequenced, hbfi, start, end),
            run@.wf(),
    {
        Run::begin(Discipline::ReliableSequenced, hbfi, start, end)
    }

    /// The request to send next for `run`, and its timer started at `now`:
    /// a request for the stream at the offset that the run asks for, to leave
    /// by the endpoint's link. Nothing where the run is over.
    pub fn next_request(&mut self, run: &Run, now: u64) -> (out: Option<InterLinkPacket>)
        ensures
            out is Some <==> !run.done,
            final(self).link_id == old(self).link_id,
            final(self).protocol_sid == old(self).protocol_sid,
            out matches Some(ilp) ==> {
                &&& ilp.link_id == old(self).link_id
                &&& ilp.lp.reply_to == old(self).link_id.reply_to
                &&& ilp.lp.nw is Request
                &&& ilp.lp.nw.hbfi_spec() == (HBFI { ost: run.counter, ..run.hbfi })
                &&& final(self).cc@ == started(
                    old(self).cc@,
                    nonce_key(ilp.lp.nw.nonce_spec()),
                    now,
                )
            },
            out is None ==> final(self).cc@ == old(self).cc@,
    {
        if run.done {
            return None;
        }
        let nw = NarrowWaistPacket::request(run.hbfi.offset(run.counter));
        let lp = LinkPacket::new(self.link_id.reply_to(), nw);
        let ilp = InterLinkPacket::new(self.link_id, lp);
        self.cc.start_timer(&nw, now);
        Some(ilp)
    }

    /// How long to wait for the response to `request`; nothing where its
    /// timer is no longer known, and then there is nothing to wait for.
    pub fn wait_for(&mut self, request: &InterLinkPacket) -> (wait: Option<u64>)
        ensures
            final(self).link_id == old(self).link_id,
            final(self).protocol_sid == old(self).protocol_sid,
            final(self).cc@ == settled(
                old(self).cc@,
                nonce_key(request.lp.nw.nonce_spec()),
                |line: Entry| line.2,
            ),
            wait == (if crate::congestion::position(
                old(self).cc@,
                nonce_key(request.lp.nw.nonce_spec()),
            ) < old(self).cc@.len() {
                Some(
                    old(self).cc@[crate::congestion::position(
                        old(self).cc@,
                        nonce_key(request.lp.nw.nonce_spec()),
                    )].2,
                )
            } else {
                None
            }),
    {
        self.cc.wait_for(&request.lp.nw)
    }

    /// Takes note of what the wait for the response to `request` brought, at
    /// the time `now`.
    ///
    /// The request's timer is reset to the round-trip time where a packet
    /// arrived and doubled where the wait ran out. The run goes on as
    /// `RunView::settled` says.
    pub fn settle(&mut self, run: &mut Run, request: &InterLinkPacket, event: Event, now: u64)
        ensures
            final(self).link_id == old(self).link_id,
            final(self).protocol_sid == old(self).protocol_sid,
            final(run)@ == old(run)@.settled(event.packet(), old(self).protocol_sid),
            old(run)@.wf() ==> final(run)@.wf(),
            final(self).cc@ == (match event {
                Event::Received(_) => settled(
                    old(self).cc@,
                    nonce_key(request.lp.nw.nonce_spec()),
                    |line: Entry| elapsed(line.1, now),
                ),
                Event::TimedOut => settled(
                    old(self).cc@,
                    nonce_key(request.lp.nw.nonce_spec()),
                    |line: Entry| doubled(line.2),
                ),
            }),
    {
        proof {
            if run@.wf() {
                lemma_settled_wf(run@, event.packet(), self.protocol_sid);
            }
        }
        match event {
            Event::TimedOut => {
                self.cc.timed_out(&request.lp.nw);
                run.miss();
            },
            Event::Received(ilp) => {
                self.cc.received(&request.lp.nw, now);
                let nw = ilp.narrow_waist();
                match nw {
                    NarrowWaistPacket::Request { .. } => {
                        run.miss();
                    },
                    NarrowWaistPacket::Response { hbfi, .. } => {
                        if run.accepts(hbfi.ost) {
                            let reader = if hbfi.request_pid.is_some() {
                                Some(self.protocol_sid)
                            } else {
                                None
                            };
                            match nw.data(reader) {
                                Ok(chunk) => {
                                    run.deliver(hbfi.ost, chunk);
                                },
                                Err(e) => {
                                    run.fail(e);
                                },
                            }
                        } else {
                            run.miss();
                        }
                    },
                }
            },
        }
    }

    /// Wraps `data` into a response under `hbfi`, signed by the endpoint and
    /// to leave by its link.
    pub fn respond(&self, hbfi: HBFI, data: &Vec<u8>) -> (out: Result<InterLinkPacket, PacketError>)
        ensures
            data@.len() > crate::narrow_waist::FRAGMENT_SIZE ==> out == Err::<
                InterLinkPacket,
                PacketError,
            >(PacketError::MalformedPacket),
            data@.len() <= crate::narrow_waist::FRAGMENT_SIZE && hbfi.response_pid@
                != identity_public(self.protocol_sid@) ==> out == Err::<
                InterLinkPacket,
                PacketError,
            >(PacketError::WrongKey),
            data@.len() <= crate::narrow_waist::FRAGMENT_SIZE && hbfi.response_pid@
                == identity_public(self.protocol_sid@) ==> out is Ok,
            out matches Ok(ilp) ==> {
                &&& ilp.link_id == self.link_id
                &&& ilp.lp.reply_to == self.link_id.reply_to
                &&& ilp.lp.nw matches NarrowWaistPacket::Response {
                    hbfi: h,
                    offset: o,
                    total: t,
                    ..
                } && h == hbfi && o == 0 && t == 0
                &&& ilp.lp.nw.wf()
                &&& ilp.lp.nw.is_response_of(self.protocol_sid@, data@)
            },
    {
        match NarrowWaistPacket::response(&self.protocol_sid, hbfi, data, 0, 0) {
            Ok(nw) => {
                let lp = LinkPacket::new(self.link_id.reply_to(), nw);
                Ok(InterLinkPacket::new(self.link_id, lp))
            },
            Err(e) => Err(e),
        }
    }
}

} // verus!
