//! Error taxonomy for the channel and session layers.

use vstd::prelude::*;

verus! {

/// Everything that can go wrong while binding, sending, receiving or
/// dispatching. Recoverable kinds are surfaced to the user as alerts;
/// only the two channel-setup kinds are fatal at startup.
#[derive(Clone, Copy, Debug, PartialEq, Eq, Structural)]
pub enum FloodFileError {
    /// The datalink layer handed back a non-Ethernet channel pair.
    InvalidChannelType,
    /// The OS refused to bind the raw socket.
    ChannelError,
    /// A logical payload would need more than 65,535 chunks.
    FileTooLarge,
    /// A single chunk body would overflow the one-byte length field.
    PacketTooLarge,
    /// The raw send returned an error.
    FailedToSendArp,
    /// The outgoing frame buffer could not be constructed.
    FailedToSerializeArp,
    /// A fully reassembled payload did not decode.
    FailedToDeserializeArp,
    /// The hash computation refused its input.
    UnableToGenerateHash,
    /// The user supplied a storage path that does not work.
    InvalidDestinationPath,
}

/// The user-facing text of each error kind.
pub open spec fn spec_message(e: FloodFileError) -> Seq<char> {
    match e {
        FloodFileError::InvalidChannelType => "invalid channel type provided."@,
        FloodFileError::ChannelError => "an error has occurred acquiring channel."@,
        FloodFileError::FileTooLarge => "the provided file is too large to reliably send."@,
        FloodFileError::PacketTooLarge => "the provided packet is too large to send."@,
        FloodFileError::FailedToSendArp => "unable to send ARP packet over the wire."@,
        FloodFileError::FailedToSerializeArp => "unable to serialize ARP packet."@,
        FloodFileError::FailedToDeserializeArp => "unable to deserialize ARP packet."@,
        FloodFileError::UnableToGenerateHash => "unable to generate file-hash."@,
        FloodFileError::InvalidDestinationPath => "invalid path to save files."@,
    }
}

impl FloodFileError {
    /// A user-facing description of the error, one fixed non-empty text
    /// per kind.
    pub fn message(&self) -> (r: &'static str)
        ensures
            r@ == spec_message(*self),
            r@.len() > 0,
    {
        let r = match self {
            FloodFileError::InvalidChannelType => "invalid channel type provided.",
            FloodFileError::ChannelError => "an error has occurred acquiring channel.",
            FloodFileError::FileTooLarge => "the provided file is too large to reliably send.",
            FloodFileError::PacketTooLarge => "the provided packet is too large to send.",
            FloodFileError::FailedToSendArp => "unable to send ARP packet over the wire.",
            FloodFileError::FailedToSerializeArp => "unable to serialize ARP packet.",
            FloodFileError::FailedToDeserializeArp => "unable to deserialize ARP packet.",
            FloodFileError::UnableToGenerateHash => "unable to generate file-hash.",
            FloodFileError::InvalidDestinationPath => "invalid path to save files.",
        };
        proof {
            reveal_strlit("invalid channel type provided.");
            reveal_strlit("an error has occurred acquiring channel.");
            reveal_strlit("the provided file is too large to reliably send.");
            reveal_strlit("the provided packet is too large to send.");
            reveal_strlit("unable to send ARP packet over the wire.");
            reveal_strlit("unable to serialize ARP packet.");
            reveal_strlit("unable to deserialize ARP packet.");
            reveal_strlit("unable to generate file-hash.");
            reveal_strlit("invalid path to save files.");
        }
        r
    }
}

} // verus!
