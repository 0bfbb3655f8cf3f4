//! Setup failures: an invalid target or port specification is fatal to the
//! requested scan and is reported with a message naming the offending input.

use vstd::prelude::*;

verus! {

/// What made the scan request invalid.
#[derive(Clone, Copy, Debug, PartialEq, Eq, Structural)]
pub enum SetupErrorKind {
    /// An address literal or range endpoint with bad syntax.
    InvalidAddress,
    /// A domain lookup that failed or yielded no address.
    DomainResolutionFailed,
    /// Malformed CIDR text.
    InvalidCidr,
    /// Range text that is not two dash-separated tokens.
    InvalidRange,
    /// Range endpoints of different address families.
    MixedAddressFamily,
    /// A range whose start exceeds its end.
    InvertedRange,
    /// An IPv6 enumeration beyond what can be held: a range over the
    /// deliberate 65536-address memory bound, or a block with more host
    /// addresses than a `Vec` can carry.
    RangeTooLarge,
}

/// A fatal setup failure, carrying the offending input text.
#[derive(Clone, Debug)]
pub struct SetupError {
    pub kind: SetupErrorKind,
    pub input: String,
}

/// The message prefix that describes each failure kind.
pub open spec fn kind_prefix(k: SetupErrorKind) -> Seq<char> {
    match k {
        SetupErrorKind::InvalidAddress => "Invalid IP address: "@,
        SetupErrorKind::DomainResolutionFailed => "Could not resolve the domain: "@,
        SetupErrorKind::InvalidCidr => "Invalid CIDR notation: "@,
        SetupErrorKind::InvalidRange => "Invalid range format: "@,
        SetupErrorKind::MixedAddressFamily => "Start and end IPs must be of the same version: "@,
        SetupErrorKind::InvertedRange => "Start IP must be less than or equal to end IP: "@,
        SetupErrorKind::RangeTooLarge => "IPv6 enumeration too large: "@,
    }
}

impl SetupError {
    /// A failure of kind `kind` blaming the text `input`.
    pub fn new(kind: SetupErrorKind, input: &str) -> (e: SetupError)
        ensures
            e.kind == kind,
            e.input@ == input@,
    {
        SetupError { kind, input: input.to_owned() }
    }

    /// A descriptive message naming the offending input.
    pub fn message(&self) -> (m: String)
        ensures
            m@ == kind_prefix(self.kind) + self.input@,
    {
        let mut s = String::new();
        match self.kind {
            SetupErrorKind::InvalidAddress => s.append("Invalid IP address: "),
            SetupErrorKind::DomainResolutionFailed => s.append("Could not resolve the domain: "),
            SetupErrorKind::InvalidCidr => s.append("Invalid CIDR notation: "),
            SetupErrorKind::InvalidRange => s.append("Invalid range format: "),
            SetupErrorKind::MixedAddressFamily => s.append(
                "Start and end IPs must be of the same version: ",
            ),
            SetupErrorKind::InvertedRange => s.append(
                "Start IP must be less than or equal to end IP: ",
            ),
            SetupErrorKind::RangeTooLarge => s.append("IPv6 enumeration too large: "),
        }
        s.append(self.input.as_str());
        s
    }
}

} // verus!
