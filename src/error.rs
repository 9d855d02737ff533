use vstd::prelude::*;

verus! {

/// Errors reported by the library.
#[derive(Debug, Clone, Copy, PartialEq, Eq, Structural)]
pub enum MdnsError {
    /// The bytes do not form a well-formed message.
    DecodeError,
    /// A text name breaks the label or length limits of a domain name.
    InvalidName,
    /// Records had to carry a local address and none was available.
    NoLocalAddress,
    /// The registry holds as many services as one message can advertise.
    RegistryFull,
}

} // verus!
