//! The ways in which a packet can fail to be read.

use vstd::prelude::*;
use vstd::string::StringExecFns;

verus! {

#[derive(Clone, Copy, PartialEq, Eq, Debug, Structural)]
pub enum PacketError {
    /// The bytes are no encoding of a packet, or the packet breaks a limit.
    MalformedPacket,
    /// Forward error correction could not recover a shard.
    PacketCorrupt,
    /// A signature or an authentication tag did not verify.
    AuthenticationFailed,
    /// The key at hand is not the one the packet was made for.
    WrongKey,
}

impl PacketError {
    /// A short description, for logs.
    pub fn message(&self) -> (text: String)
        ensures
            text@ == (match *self {
                PacketError::MalformedPacket => "malformed packet"@,
                PacketError::PacketCorrupt => "packet corrupted beyond recovery"@,
                PacketError::AuthenticationFailed => "authentication failed"@,
                PacketError::WrongKey => "wrong key"@,
            }),
    {
        match self {
            PacketError::MalformedPacket => String::from_str("malformed packet"),
            PacketError::PacketCorrupt => String::from_str("packet corrupted beyond recovery"),
            PacketError::AuthenticationFailed => String::from_str("authentication failed"),
            PacketError::WrongKey => String::from_str("wrong key"),
        }
    }
}

} // verus!
