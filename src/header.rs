//! The RTP fixed header, its extension, and their mathematical models.
use vstd::prelude::*;
use crate::source::{ContributingSource, ContributingSourceList, SynchronizationSource};

verus! {

/// Most contributing sources one header can list (the 4-bit CC field).
pub const MAX_CSRC_COUNT: u8 = 15;

/// Largest payload type (the 7-bit PT field).
pub const MAX_PAYLOAD_TYPE: u8 = 127;

/// The RTP version field. Only `TWO` is accepted into a session; the others
/// can still be represented so that what was seen can be reported.
#[allow(non_camel_case_types)]
#[derive(Clone, Copy, Debug, PartialEq, Eq, Structural)]
pub enum Version {
    /// Used by the protocol first implemented in the "vat" audio tool.
    ZERO,
    /// Used by the first draft version of RTP.
    ONE,
    /// The version defined by RFC 3550.
    TWO,
    /// The remaining two-bit value.
    RESERVED,
}

/// The two-bit wire value of a version.
pub open spec fn version_bits(v: Version) -> u8 {
    match v {
        Version::ZERO => 0,
        Version::ONE => 1,
        Version::TWO => 2,
        Version::RESERVED => 3,
    }
}

/// The version that a two-bit wire value stands for.
pub open spec fn version_of_bits(b: u8) -> Version {
    if b == 0 {
        Version::ZERO
    } else if b == 1 {
        Version::ONE
    } else if b == 2 {
        Version::TWO
    } else {
        Version::RESERVED
    }
}

impl Version {
    /// The two-bit wire value of this version.
    pub fn to_bits(self) -> (r: u8)
        ensures
            r == version_bits(self),
            r < 4,
    {
        match self {
            Version::ZERO => 0,
            Version::ONE => 1,
            Version::TWO => 2,
            Version::RESERVED => 3,
        }
    }

    /// The version that the two-bit value `b` stands for.
    pub fn from_bits(b: u8) -> (r: Version)
        requires
            b < 4,
        ensures
            r == version_of_bits(b),
    {
        if b == 0 {
            Version::ZERO
        } else if b == 1 {
            Version::ONE
        } else if b == 2 {
            Version::TWO
        } else {
            Version::RESERVED
        }
    }
}

/// A profile-defined header extension: a tag, a length in 32-bit words, and
/// an opaque body of `4 * length` bytes that is carried unchanged.
#[derive(Clone, Debug, PartialEq, Eq)]
pub struct HeaderExtension {
    pub defined_by_profile: u16,
    pub length: u16,
    pub body: Vec<u8>,
}

/// The RTP fixed header with its contributing source list and optional
/// extension.
#[derive(Clone, Debug, PartialEq, Eq)]
pub struct Header {
    pub version: Version,
    pub padding: bool,
    pub extension: bool,
    pub csrc_count: u8,
    pub marker: bool,
    pub payload_type: u8,
    pub sequence_number: u16,
    pub timestamp: u32,
    pub ssrc: SynchronizationSource,
    pub csrc_list: ContributingSourceList,
    pub header_extension: Option<HeaderExtension>,
}

/// What a header extension holds, as mathematical values.
pub struct ExtensionModel {
    pub defined_by_profile: u16,
    pub length: u16,
    pub body: Seq<u8>,
}

/// What a header holds, as mathematical values; identifiers are their
/// 32-bit values.
pub struct HeaderModel {
    pub version: Version,
    pub padding: bool,
    pub extension: bool,
    pub csrc_count: u8,
    pub marker: bool,
    pub payload_type: u8,
    pub sequence_number: u16,
    pub timestamp: u32,
    pub ssrc: u32,
    pub csrc_list: Seq<u32>,
    pub header_extension: Option<ExtensionModel>,
}

impl View for HeaderExtension {
    type V = ExtensionModel;

    open spec fn view(&self) -> ExtensionModel {
        ExtensionModel {
            defined_by_profile: self.defined_by_profile,
            length: self.length,
            body: self.body@,
        }
    }
}

/// The model of an optional extension.
pub open spec fn extension_view(e: Option<HeaderExtension>) -> Option<ExtensionModel> {
    match e {
        Some(x) => Some(x@),
        None => None,
    }
}

/// The 32-bit values of a list of contributing sources, in order.
pub open spec fn csrc_values(list: Seq<ContributingSource>) -> Seq<u32> {
    list.map_values(|c: ContributingSource| c.0)
}

impl View for Header {
    type V = HeaderModel;

    open spec fn view(&self) -> HeaderModel {
        HeaderModel {
            version: self.version,
            padding: self.padding,
            extension: self.extension,
            csrc_count: self.csrc_count,
            marker: self.marker,
            payload_type: self.payload_type,
            sequence_number: self.sequence_number,
            timestamp: self.timestamp,
            ssrc: self.ssrc.0,
            csrc_list: csrc_values(self.csrc_list@),
            header_extension: extension_view(self.header_extension),
        }
    }
}

impl ExtensionModel {
    /// The body holds exactly `length` 32-bit words.
    pub open spec fn well_formed(self) -> bool {
        self.body.len() == 4 * (self.length as int)
    }
}

impl HeaderModel {
    /// The count matches the list, every field fits its bits, and the
    /// extension flag tells whether an extension is present.
    pub open spec fn well_formed(self) -> bool {
        &&& self.csrc_count as int == self.csrc_list.len()
        &&& self.csrc_count <= MAX_CSRC_COUNT
        &&& self.payload_type <= MAX_PAYLOAD_TYPE
        &&& self.extension == self.header_extension is Some
        &&& match self.header_extension {
            Some(e) => e.well_formed(),
            None => true,
        }
    }
}

impl Header {
    /// Whether this header satisfies the conditions for encoding.
    pub fn is_well_formed(&self) -> (r: bool)
        ensures
            r == self@.well_formed(),
    {
        assert(self.csrc_list@.len() == csrc_values(self.csrc_list@).len());
        if self.csrc_count as usize != self.csrc_list.len() || self.csrc_count > MAX_CSRC_COUNT
            || self.payload_type > MAX_PAYLOAD_TYPE {
            return false;
        }
        match &self.header_extension {
            Some(e) => self.extension && e.body.len() == 4 * (e.length as usize),
            None => !self.extension,
        }
    }
}

} // verus!
