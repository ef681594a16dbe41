//! The endpoint's request path over the response cache.
//!
//! A stream is fetched one offset at a time. For each offset the endpoint
//! first looks into the cache, under the wire form of the index; only where
//! the cache has nothing it sends a request and waits for the cache to be
//! filled. What the endpoint decides is written here as transitions on the
//! state of a fetch; the cache and the channel are the caller's.

use crate::error::PacketError;
use crate::hbfi::{hbfi_bytes, HBFI};
use crate::identity::{identity_public, PrivateIdentity};
use crate::link::{InterLinkPacket, LinkId, LinkPacket};
use crate::narrow_waist::{NarrowWaistPacket, FRAGMENT_SIZE};
use crate::octets::append_bytes;
use crate::txrx::reader_for;
use vstd::prelude::*;

verus! {

/// The state of a fetch: the stream, the offset to fetch next, the last
/// offset, and the payloads fetched so far, one after the other.
pub struct Fetch {
    pub hbfi: HBFI,
    pub counter: u64,
    pub end: u64,
    pub done: bool,
    pub reconstruct: Vec<u8>,
}

pub struct FetchView {
    pub hbfi: HBFI,
    pub counter: u64,
    pub end: u64,
    pub done: bool,
    pub reconstruct: Seq<u8>,
}

impl View for Fetch {
    type V = FetchView;

    open spec fn view(&self) -> FetchView {
        FetchView {
            hbfi: self.hbfi,
            counter: self.counter,
            end: self.end,
            done: self.done,
            reconstruct: self.reconstruct@,
        }
    }
}

/// What the cache reports of a key that the endpoint watches.
pub enum Event {
    /// A value was stored under the key.
    Insert { value: Vec<u8> },
    /// The key was removed.
    Remove,
}

impl FetchView {
    /// A fetch of the offsets `start..=end` of the stream `hbfi`.
    pub open spec fn begin(hbfi: HBFI, start: u64, end: u64) -> FetchView {
        FetchView { hbfi, counter: start, end, done: start > end, reconstruct: Seq::empty() }
    }

    /// The index to fetch next.
    pub open spec fn wanted(self) -> HBFI {
        HBFI { ost: self.counter, ..self.hbfi }
    }

    /// The fetch one offset further, or over where the last offset was
    /// reached.
    pub open spec fn advanced(self) -> FetchView {
        if self.counter >= self.end {
            FetchView { done: true, ..self }
        } else {
            FetchView { counter: (self.counter + 1) as u64, ..self }
        }
    }

    /// The payload that the cached bytes `value` hold for the fetch, read
    /// with the endpoint's private identity `sid`: `value` must be the wire
    /// form of a response, which is verified and, where the stream names a
    /// requester, decrypted.
    pub open spec fn payload(self, value: Seq<u8>, sid: PrivateIdentity) -> Result<
        Seq<u8>,
        PacketError,
    > {
        match NarrowWaistPacket::parsed(value) {
            Some(nw) => nw.data_spec(reader_for(self.hbfi, sid)),
            None => Err(PacketError::MalformedPacket),
        }
    }

    /// The fetch after `chunk` was fetched for the offset asked for.
    pub open spec fn taken(self, chunk: Seq<u8>) -> FetchView {
        FetchView { reconstruct: self.reconstruct + chunk, ..self }.advanced()
    }
}

/// The endpoint's side of a link: who it is.
#[derive(Clone, Copy, PartialEq, Eq, Debug)]
pub struct TxRx {
    pub link_id: LinkId,
    pub sid: PrivateIdentity,
}

impl TxRx {
    pub fn new(link_id: LinkId, sid: PrivateIdentity) -> (txrx: TxRx)
        ensures
            txrx == (TxRx { link_id, sid }),
    {
        TxRx { link_id, sid }
    }

    /// Begins to fetch the offsets `start..=end` of the stream `hbfi`.
    pub fn request(&self, hbfi: HBFI, start: u64, end: u64) -> (fetch: Fetch)
        ensures
            fetch@ == FetchView::begin(hbfi, start, end),
    {
        Fetch { hbfi, counter: start, end, done: start > end, reconstruct: Vec::new() }
    }

    /// The key under which the cache holds the response that the fetch wants
    /// next: the wire form of the index, offset included.
    pub fn key(&self, fetch: &Fetch) -> (key: Vec<u8>)
        ensures
            key@ == hbfi_bytes(fetch@.wanted()),
    {
        fetch.hbfi.offset(fetch.counter).to_bytes()
    }

    /// The request to send where the cache has nothing under the key, to
    /// leave by the endpoint's link: a request for the index wanted, under a
    /// fresh nonce.
    pub fn ask(&self, fetch: &Fetch) -> (ilp: InterLinkPacket)
        ensures
            ilp.link_id == self.link_id,
            ilp.lp.reply_to == self.link_id.reply_to,
            ilp.lp.nw is Request,
            ilp.lp.nw.hbfi_spec() == fetch@.wanted(),
    {
        let nw = NarrowWaistPacket::request(fetch.hbfi.offset(fetch.counter));
        let lp = LinkPacket::new(self.link_id.reply_to(), nw);
        InterLinkPacket::new(self.link_id, lp)
    }

    /// Takes what the cache holds under the key: the payload joins what was
    /// fetched so far and the fetch moves on. Where the bytes are no response
    /// that this endpoint can read, the error is returned and the fetch stays
    /// as it was.
    pub fn found(&self, fetch: &mut Fetch, value: &[u8]) -> (out: Result<(), PacketError>)
        ensures
            match old(fetch)@.payload(value@, self.sid) {
                Ok(chunk) => out is Ok && final(fetch)@ == old(fetch)@.taken(chunk),
                Err(e) => out == Err::<(), PacketError>(e) && final(fetch)@ == old(fetch)@,
            },
    {
        let nw = match NarrowWaistPacket::from_bytes(value) {
            Some(nw) => nw,
            None => {
                return Err(PacketError::MalformedPacket);
            },
        };
        let reader = if fetch.hbfi.request_pid.is_some() {
            Some(self.sid)
        } else {
            None
        };
        match nw.data(reader) {
            Ok(chunk) => {
                append_bytes(&mut fetch.reconstruct, chunk.as_slice());
                if fetch.counter >= fetch.end {
                    fetch.done = true;
                } else {
                    fetch.counter = fetch.counter + 1;
                }
                Ok(())
            },
            Err(e) => Err(e),
        }
    }

    /// Takes what the cache reports of the key after a request was sent: a
    /// value that was stored is taken as `found` takes it; a removal brings no
    /// payload, and the fetch moves on.
    pub fn notified(&self, fetch: &mut Fetch, event: &Event) -> (out: Result<(), PacketError>)
        ensures
            match *event {
                Event::Insert { value } => match old(fetch)@.payload(value@, self.sid) {
                    Ok(chunk) => out is Ok && final(fetch)@ == old(fetch)@.taken(chunk),
                    Err(e) => out == Err::<(), PacketError>(e) && final(fetch)@ == old(fetch)@,
                },
                Event::Remove => out is Ok && final(fetch)@ == old(fetch)@.advanced(),
            },
    {
        match event {
            Event::Insert { value } => self.found(fetch, value.as_slice()),
            Event::Remove => {
                if fetch.counter >= fetch.end {
                    fetch.done = true;
                } else {
                    fetch.counter = fetch.counter + 1;
                }
                Ok(())
            },
        }
    }

    /// Wraps `data` into a response under `hbfi`, signed by the endpoint and
    /// to leave by its link.
    pub fn respond(&self, hbfi: HBFI, data: &Vec<u8>) -> (out: Result<InterLinkPacket, PacketError>)
        ensures
            data@.len() > FRAGMENT_SIZE ==> out == Err::<InterLinkPacket, PacketError>(
                PacketError::MalformedPacket,
            ),
            data@.len() <= FRAGMENT_SIZE && hbfi.response_pid@ != identity_public(self.sid@)
                ==> out == Err::<InterLinkPacket, PacketError>(PacketError::WrongKey),
            data@.len() <= FRAGMENT_SIZE && hbfi.response_pid@ == identity_public(self.sid@)
                ==> out is Ok,
            out matches Ok(ilp) ==> {
                &&& ilp.link_id == self.link_id
                &&& ilp.lp.reply_to == self.link_id.reply_to
                &&& ilp.lp.nw matches NarrowWaistPacket::Response {
                    hbfi: h,
                    offset: o,
                    total: t,
                    ..
                } && h == hbfi && o == 0 && t == 0
                &&& ilp.lp.nw.wf()
                &&& ilp.lp.nw.is_response_of(self.sid@, data@)
            },
    {
        match NarrowWaistPacket::response(&self.sid, hbfi, data, 0, 0) {
            Ok(nw) => {
                let lp = LinkPacket::new(self.link_id.reply_to(), nw);
                Ok(InterLinkPacket::new(self.link_id, lp))
            },
            Err(e) => Err(e),
        }
    }
}

} // verus!
