//! Encoding headers to the RFC 3550 byte layout and decoding them back.
use vstd::prelude::*;
use crate::header::{
    csrc_values, version_bits, version_of_bits, ExtensionModel, Header, HeaderExtension,
    HeaderModel, Version,
};
use crate::source::{ContributingSource, SynchronizationSource};

verus! {

/// Bit position of the version field in the first byte.
pub const VERSION_SHIFT: u8 = 6;

/// The padding flag in the first byte.
pub const PADDING_BIT: u8 = 0x20;

/// The extension-present flag in the first byte.
pub const EXTENSION_BIT: u8 = 0x10;

/// The CSRC count field in the first byte.
pub const CSRC_COUNT_MASK: u8 = 0x0f;

/// The marker flag in the second byte.
pub const MARKER_BIT: u8 = 0x80;

/// The payload type field in the second byte.
pub const PAYLOAD_TYPE_MASK: u8 = 0x7f;

/// Length of the fixed part of the header.
pub const FIXED_HEADER_LEN: usize = 12;

/// Why a byte sequence is not an acceptable header.
#[derive(Clone, Copy, Debug, PartialEq, Eq, Structural)]
pub enum DecodeError {
    /// Fewer than the 12 bytes of the fixed header.
    TooShort,
    /// The input ends inside the contributing source list.
    TruncatedCsrcList,
    /// The extension flag is set but the input ends inside the extension.
    TruncatedExtension,
    /// The version field is not 2.
    UnsupportedVersion,
}

/// Big-endian bytes of a 16-bit value.
pub open spec fn be16(v: u16) -> Seq<u8> {
    seq![(v >> 8u16) as u8, v as u8]
}

/// Big-endian bytes of a 32-bit value.
pub open spec fn be32(v: u32) -> Seq<u8> {
    seq![(v >> 24u32) as u8, (v >> 16u32) as u8, (v >> 8u32) as u8, v as u8]
}

/// The 16-bit value whose big-endian bytes start at `b[i]`.
pub open spec fn be16_at(b: Seq<u8>, i: int) -> u16 {
    ((b[i] as u16) << 8u16) | (b[i + 1] as u16)
}

/// The 32-bit value whose big-endian bytes start at `b[i]`.
pub open spec fn be32_at(b: Seq<u8>, i: int) -> u32 {
    ((b[i] as u32) << 24u32) | ((b[i + 1] as u32) << 16u32) | ((b[i + 2] as u32) << 8u32) | (
    b[i + 3] as u32)
}

/// `bit` if `flag` holds, else no bit.
pub open spec fn flag_bits(flag: bool, bit: u8) -> u8 {
    if flag {
        bit
    } else {
        0
    }
}

/// Byte 0: version, padding, extension flag and CSRC count.
pub open spec fn first_byte(m: HeaderModel) -> u8 {
    (version_bits(m.version) << VERSION_SHIFT) | flag_bits(m.padding, PADDING_BIT) | flag_bits(
        m.extension,
        EXTENSION_BIT,
    ) | m.csrc_count
}

/// Byte 1: marker and payload type.
pub open spec fn second_byte(m: HeaderModel) -> u8 {
    flag_bits(m.marker, MARKER_BIT) | m.payload_type
}

/// The 12 bytes of the fixed header.
pub open spec fn fixed_bytes(m: HeaderModel) -> Seq<u8> {
    seq![first_byte(m), second_byte(m)] + be16(m.sequence_number) + be32(m.timestamp) + be32(
        m.ssrc,
    )
}

/// The contributing source list, four big-endian bytes per entry.
pub open spec fn csrc_bytes(list: Seq<u32>) -> Seq<u8> {
    Seq::new((4 * list.len()) as nat, |k: int| be32(list[k / 4])[k % 4])
}

/// The extension's tag, its length, then its body; nothing without one.
pub open spec fn extension_bytes(e: Option<ExtensionModel>) -> Seq<u8> {
    match e {
        Some(x) => be16(x.defined_by_profile) + be16(x.length) + x.body,
        None => Seq::empty(),
    }
}

/// The wire form of a header.
pub open spec fn encoding(m: HeaderModel) -> Seq<u8> {
    fixed_bytes(m) + csrc_bytes(m.csrc_list) + extension_bytes(m.header_extension)
}

/// Appends the big-endian bytes of `v`.
fn push_u16(out: &mut Vec<u8>, v: u16)
    ensures
        final(out)@ == old(out)@ + be16(v),
{
    out.push((v >> 8u16) as u8);
    out.push(v as u8);
    assert(final(out)@ =~= old(out)@ + be16(v));
}

/// Appends the big-endian bytes of `v`.
fn push_u32(out: &mut Vec<u8>, v: u32)
    ensures
        final(out)@ == old(out)@ + be32(v),
{
    out.push((v >> 24u32) as u8);
    out.push((v >> 16u32) as u8);
    out.push((v >> 8u32) as u8);
    out.push(v as u8);
    assert(final(out)@ =~= old(out)@ + be32(v));
}

/// Encodes a header to its wire form: 12 bytes, four per contributing
/// source, and the extension if there is one. Only version 2 is sent.
pub fn encode(h: &Header) -> (r: Vec<u8>)
    requires
        h@.well_formed(),
        h.version == Version::TWO,
    ensures
        r@ == encoding(h@),
{
    let m = Ghost(h@);
    let mut out: Vec<u8> = Vec::new();
    let b0 = (h.version.to_bits() << VERSION_SHIFT) | (if h.padding {
        PADDING_BIT
    } else {
        0
    }) | (if h.extension {
        EXTENSION_BIT
    } else {
        0
    }) | h.csrc_count;
    let b1 = (if h.marker {
        MARKER_BIT
    } else {
        0
    }) | h.payload_type;
    out.push(b0);
    out.push(b1);
    push_u16(&mut out, h.sequence_number);
    push_u32(&mut out, h.timestamp);
    push_u32(&mut out, h.ssrc.0);
    assert(out@ =~= fixed_bytes(m@));
    let n = h.csrc_list.len();
    let mut i: usize = 0;
    while i < n
        invariant
            n == h.csrc_list@.len(),
            m@ == h@,
            i <= n,
            out@ == fixed_bytes(m@) + csrc_bytes(m@.csrc_list.take(i as int)),
        decreases n - i,
    {
        push_u32(&mut out, h.csrc_list[i].0);
        proof {
            let list = m@.csrc_list;
            assert(list[i as int] == h.csrc_list@[i as int].0);
            assert(csrc_bytes(list.take(i + 1)) =~= csrc_bytes(list.take(i as int)) + be32(
                list[i as int],
            )) by {
                let s1 = list.take(i + 1);
                assert forall|k: int| 0 <= k < 4 * i implies #[trigger] csrc_bytes(s1)[k]
                    == csrc_bytes(list.take(i as int))[k] by {
                    assert(k / 4 < i);
                }
                assert forall|k: int| 4 * i <= k < 4 * i + 4 implies #[trigger] csrc_bytes(s1)[k]
                    == be32(list[i as int])[k - 4 * i] by {
                    assert(k / 4 == i);
                    assert(k % 4 == k - 4 * i);
                }
            }
        }
        i = i + 1;
    }
    assert(m@.csrc_list.take(n as int) =~= m@.csrc_list);
    match &h.header_extension {
        Some(e) => {
            push_u16(&mut out, e.defined_by_profile);
            push_u16(&mut out, e.length);
            let ghost start = out@;
            let len = e.body.len();
            let mut j: usize = 0;
            while j < len
                invariant
                    len == e.body@.len(),
                    j <= len,
                    out@ == start + e.body@.take(j as int),
                decreases len - j,
            {
                out.push(e.body[j]);
                assert(e.body@.take(j + 1) =~= e.body@.take(j as int).push(e.body@[j as int]));
                j = j + 1;
            }
            assert(e.body@.take(len as int) =~= e.body@);
        },
        None => {},
    }
    assert(out@ =~= encoding(m@));
    out
}

/// The CSRC count field of a buffer.
pub open spec fn csrc_count_of(b: Seq<u8>) -> u8 {
    b[0] & CSRC_COUNT_MASK
}

/// Whether the extension flag of a buffer is set.
pub open spec fn extension_flag(b: Seq<u8>) -> bool {
    b[0] & EXTENSION_BIT != 0
}

/// Where the contributing source list of a buffer ends.
pub open spec fn extension_start(b: Seq<u8>) -> int {
    12 + 4 * csrc_count_of(b)
}

/// The extension length field of a buffer, in 32-bit words.
pub open spec fn extension_length_of(b: Seq<u8>) -> u16 {
    be16_at(b, extension_start(b) + 2)
}

/// The header that a buffer starts with, or why it has none. Bytes after
/// the header (the payload) are not looked at. Any version is accepted.
pub open spec fn parse_spec(b: Seq<u8>) -> Result<HeaderModel, DecodeError> {
    if b.len() < 12 {
        Err(DecodeError::TooShort)
    } else if b.len() < extension_start(b) {
        Err(DecodeError::TruncatedCsrcList)
    } else if extension_flag(b) && (b.len() < extension_start(b) + 4 || b.len() < extension_start(
        b,
    ) + 4 + 4 * extension_length_of(b)) {
        Err(DecodeError::TruncatedExtension)
    } else {
        let es = extension_start(b);
        Ok(
            HeaderModel {
                version: version_of_bits(b[0] >> VERSION_SHIFT),
                padding: b[0] & PADDING_BIT != 0,
                extension: extension_flag(b),
                csrc_count: csrc_count_of(b),
                marker: b[1] & MARKER_BIT != 0,
                payload_type: b[1] & PAYLOAD_TYPE_MASK,
                sequence_number: be16_at(b, 2),
                timestamp: be32_at(b, 4),
                ssrc: be32_at(b, 8),
                csrc_list: Seq::new(csrc_count_of(b) as nat, |i: int| be32_at(b, 12 + 4 * i)),
                header_extension: if extension_flag(b) {
                    Some(
                        ExtensionModel {
                            defined_by_profile: be16_at(b, es),
                            length: extension_length_of(b),
                            body: b.subrange(es + 4, es + 4 + 4 * extension_length_of(b)),
                        },
                    )
                } else {
                    None
                },
            },
        )
    }
}

/// As `parse_spec`, and only version 2 is accepted.
pub open spec fn decode_spec(b: Seq<u8>) -> Result<HeaderModel, DecodeError> {
    match parse_spec(b) {
        Ok(m) => if m.version == Version::TWO {
            Ok(m)
        } else {
            Err(DecodeError::UnsupportedVersion)
        },
        Err(e) => Err(e),
    }
}

/// The model of a decoding result.
pub open spec fn result_view(r: Result<Header, DecodeError>) -> Result<HeaderModel, DecodeError> {
    match r {
        Ok(h) => Ok(h@),
        Err(e) => Err(e),
    }
}

/// Reads the big-endian 16-bit value at `b[i]`.
fn read_u16(b: &[u8], i: usize) -> (r: u16)
    requires
        i + 2 <= b@.len(),
    ensures
        r == be16_at(b@, i as int),
{
    ((b[i] as u16) << 8u16) | (b[i + 1] as u16)
}

/// Reads the big-endian 32-bit value at `b[i]`.
fn read_u32(b: &[u8], i: usize) -> (r: u32)
    requires
        i + 4 <= b@.len(),
    ensures
        r == be32_at(b@, i as int),
{
    ((b[i] as u32) << 24u32) | ((b[i + 1] as u32) << 16u32) | ((b[i + 2] as u32) << 8u32) | (b[i
        + 3] as u32)
}

/// Decodes the header that `bytes` starts with, whatever its version.
/// Each kind of truncation is reported as its own error.
pub fn parse(bytes: &[u8]) -> (r: Result<Header, DecodeError>)
    ensures
        result_view(r) == parse_spec(bytes@),
        r is Ok ==> r->Ok_0@.well_formed(),
{
    let len = bytes.len();
    if len < FIXED_HEADER_LEN {
        return Err(DecodeError::TooShort);
    }
    let b0 = bytes[0];
    let b1 = bytes[1];
    let cc = b0 & CSRC_COUNT_MASK;
    assert(cc <= 15) by (bit_vector)
        requires
            cc == b0 & 0x0f,
    ;
    let es: usize = FIXED_HEADER_LEN + 4 * (cc as usize);
    if len < es {
        return Err(DecodeError::TruncatedCsrcList);
    }
    let has_extension = b0 & EXTENSION_BIT != 0;
    let mut header_extension: Option<HeaderExtension> = None;
    if has_extension {
        if len < es + 4 {
            return Err(DecodeError::TruncatedExtension);
        }
        let defined_by_profile = read_u16(bytes, es);
        let length = read_u16(bytes, es + 2);
        let end: usize = es + 4 + 4 * (length as usize);
        if len < end {
            return Err(DecodeError::TruncatedExtension);
        }
        let mut body: Vec<u8> = Vec::new();
        let mut j: usize = es + 4;
        while j < end
            invariant
                es + 4 <= j <= end,
                end <= bytes@.len(),
                body@ == bytes@.subrange(es + 4, j as int),
            decreases end - j,
        {
            body.push(bytes[j]);
            assert(bytes@.subrange(es + 4, j + 1) =~= bytes@.subrange(es + 4, j as int).push(
                bytes@[j as int],
            ));
            j = j + 1;
        }
        header_extension = Some(HeaderExtension { defined_by_profile, length, body });
    }
    let n = cc as usize;
    let mut csrc_list: Vec<ContributingSource> = Vec::new();
    let mut i: usize = 0;
    while i < n
        invariant
            n == csrc_count_of(bytes@),
            es == extension_start(bytes@),
            es <= bytes@.len(),
            i <= n,
            csrc_values(csrc_list@) =~= Seq::new(i as nat, |k: int| be32_at(bytes@, 12 + 4 * k)),
        decreases n - i,
    {
        let v = read_u32(bytes, FIXED_HEADER_LEN + 4 * i);
        let ghost before = csrc_list@;
        csrc_list.push(ContributingSource(v));
        assert(csrc_values(csrc_list@) =~= csrc_values(before).push(v));
        i = i + 1;
    }
    proof {
        lemma_parsed_well_formed(bytes@);
    }
    let v = b0 >> VERSION_SHIFT;
    assert(v < 4) by (bit_vector)
        requires
            v == b0 >> 6,
    ;
    Ok(
        Header {
            version: Version::from_bits(v),
            padding: b0 & PADDING_BIT != 0,
            extension: has_extension,
            csrc_count: cc,
            marker: b1 & MARKER_BIT != 0,
            payload_type: b1 & PAYLOAD_TYPE_MASK,
            sequence_number: read_u16(bytes, 2),
            timestamp: read_u32(bytes, 4),
            ssrc: SynchronizationSource(read_u32(bytes, 8)),
            csrc_list,
            header_extension,
        },
    )
}

/// Accepts only headers of version 2, the version that a session works with.
pub fn check_version(h: &Header) -> (r: Result<(), DecodeError>)
    ensures
        r is Ok <==> h.version == Version::TWO,
        r is Err ==> r == Err::<(), DecodeError>(DecodeError::UnsupportedVersion),
{
    match h.version {
        Version::TWO => Ok(()),
        _ => Err(DecodeError::UnsupportedVersion),
    }
}

/// Decodes the header that `bytes` starts with and accepts it only if its
/// version is 2.
pub fn decode(bytes: &[u8]) -> (r: Result<Header, DecodeError>)
    ensures
        result_view(r) == decode_spec(bytes@),
        r is Ok ==> r->Ok_0@.well_formed(),
{
    match parse(bytes) {
        Ok(h) => match check_version(&h) {
            Ok(()) => Ok(h),
            Err(e) => Err(e),
        },
        Err(e) => Err(e),
    }
}

/// Packing version, flags and count into the first byte loses none of them.
proof fn lemma_first_byte_fields(v: u8, pb: u8, xb: u8, cc: u8)
    requires
        v < 4,
        pb == 0 || pb == 0x20,
        xb == 0 || xb == 0x10,
        cc <= 15,
    ensures
        ((v << 6u8) | pb | xb | cc) >> 6u8 == v,
        (((v << 6u8) | pb | xb | cc) & 0x20 != 0) == (pb == 0x20),
        (((v << 6u8) | pb | xb | cc) & 0x10 != 0) == (xb == 0x10),
        ((v << 6u8) | pb | xb | cc) & 0x0f == cc,
{
    assert(((v << 6u8) | pb | xb | cc) >> 6u8 == v && (((v << 6u8) | pb | xb | cc) & 0x20 != 0)
        == (pb == 0x20) && (((v << 6u8) | pb | xb | cc) & 0x10 != 0) == (xb == 0x10) && ((v
        << 6u8) | pb | xb | cc) & 0x0f == cc) by (bit_vector)
        requires
            v < 4,
            pb == 0 || pb == 0x20,
            xb == 0 || xb == 0x10,
            cc <= 15,
    ;
}

/// Packing marker and payload type into the second byte loses neither.
proof fn lemma_second_byte_fields(mb: u8, pt: u8)
    requires
        mb == 0 || mb == 0x80,
        pt <= 127,
    ensures
        ((mb | pt) & 0x80 != 0) == (mb == 0x80),
        (mb | pt) & 0x7f == pt,
{
    assert(((mb | pt) & 0x80 != 0) == (mb == 0x80) && (mb | pt) & 0x7f == pt) by (bit_vector)
        requires
            mb == 0 || mb == 0x80,
            pt <= 127,
    ;
}

/// Reading back the big-endian bytes of a 16-bit value gives the value.
proof fn lemma_be16_round_trip(v: u16)
    ensures
        be16_at(be16(v), 0) == v,
{
    let b = be16(v);
    assert(b[0] == (v >> 8u16) as u8 && b[1] == v as u8);
    assert((((v >> 8u16) as u8 as u16) << 8u16) | (v as u8 as u16) == v) by (bit_vector);
}

/// Reading back the big-endian bytes of a 32-bit value gives the value.
proof fn lemma_be32_round_trip(v: u32)
    ensures
        be32_at(be32(v), 0) == v,
{
    let b = be32(v);
    assert(b[0] == (v >> 24u32) as u8 && b[1] == (v >> 16u32) as u8 && b[2] == (v >> 8u32) as u8
        && b[3] == v as u8);
    assert((((v >> 24u32) as u8 as u32) << 24u32) | (((v >> 16u32) as u8 as u32) << 16u32) | (((v
        >> 8u32) as u8 as u32) << 8u32) | (v as u8 as u32) == v) by (bit_vector);
}

/// Two buffers that agree on four bytes read the same 32-bit value there.
proof fn lemma_be32_at_same(a: Seq<u8>, i: int, b: Seq<u8>, j: int)
    requires
        0 <= i && i + 4 <= a.len(),
        0 <= j && j + 4 <= b.len(),
        a[i] == b[j] && a[i + 1] == b[j + 1] && a[i + 2] == b[j + 2] && a[i + 3] == b[j + 3],
    ensures
        be32_at(a, i) == be32_at(b, j),
{
}

/// The wire form of a well-formed header is 12 bytes, four bytes for each
/// contributing source, and four bytes plus the body if there is an
/// extension.
pub proof fn lemma_encoded_length(m: HeaderModel)
    requires
        m.well_formed(),
    ensures
        encoding(m).len() == 12 + 4 * m.csrc_list.len() + match m.header_extension {
            Some(e) => 4 + 4 * e.length,
            None => 0,
        },
{
}

/// Decoding the wire form of a well-formed header gives that header back,
/// extension body included; if its version is 2 it is also accepted.
pub proof fn lemma_round_trip(m: HeaderModel)
    requires
        m.well_formed(),
    ensures
        parse_spec(encoding(m)) == Ok::<HeaderModel, DecodeError>(m),
        m.version == Version::TWO ==> decode_spec(encoding(m)) == Ok::<HeaderModel, DecodeError>(
            m,
        ),
{
    let b = encoding(m);
    let cs = csrc_bytes(m.csrc_list);
    let n = m.csrc_list.len();
    lemma_encoded_length(m);
    assert(b[0] == first_byte(m) && b[1] == second_byte(m));
    lemma_first_byte_fields(
        version_bits(m.version),
        flag_bits(m.padding, PADDING_BIT),
        flag_bits(m.extension, EXTENSION_BIT),
        m.csrc_count,
    );
    lemma_second_byte_fields(flag_bits(m.marker, MARKER_BIT), m.payload_type);
    assert(version_of_bits(version_bits(m.version)) == m.version);
    lemma_be16_round_trip(m.sequence_number);
    lemma_be32_round_trip(m.timestamp);
    lemma_be32_round_trip(m.ssrc);
    assert(be16_at(b, 2) == m.sequence_number) by {
        assert(b[2] == be16(m.sequence_number)[0] && b[3] == be16(m.sequence_number)[1]);
    }
    lemma_be32_at_same(b, 4, be32(m.timestamp), 0);
    lemma_be32_at_same(b, 8, be32(m.ssrc), 0);
    assert(extension_start(b) == 12 + 4 * n);
    let list = Seq::new(csrc_count_of(b) as nat, |i: int| be32_at(b, 12 + 4 * i));
    assert forall|i: int| 0 <= i < n implies #[trigger] list[i] == m.csrc_list[i] by {
        let v = m.csrc_list[i];
        assert forall|j: int| 0 <= j < 4 implies b[12 + 4 * i + j] == be32(v)[j] by {
            assert(b[12 + 4 * i + j] == cs[4 * i + j]);
            assert((4 * i + j) / 4 == i);
            assert((4 * i + j) % 4 == j);
        }
        lemma_be32_round_trip(v);
        lemma_be32_at_same(b, 12 + 4 * i, be32(v), 0);
    }
    assert(list =~= m.csrc_list);
    match m.header_extension {
        Some(e) => {
            let es: int = 12 + 4 * (n as int);
            let ext = extension_bytes(m.header_extension);
            assert(b[es] == ext[0] && b[es + 1] == ext[1] && b[es + 2] == ext[2] && b[es + 3]
                == ext[3]);
            lemma_be16_round_trip(e.defined_by_profile);
            lemma_be16_round_trip(e.length);
            assert(be16_at(b, es) == e.defined_by_profile);
            assert(be16_at(b, es + 2) == e.length);
            assert(b.subrange(es + 4, es + 4 + 4 * e.length) =~= e.body);
        },
        None => {},
    }
    assert(parse_spec(b) == Ok::<HeaderModel, DecodeError>(m));
}

/// Every header that decoding produces is well-formed, so it can be encoded
/// again.
pub proof fn lemma_parsed_well_formed(b: Seq<u8>)
    requires
        parse_spec(b) is Ok,
    ensures
        parse_spec(b)->Ok_0.well_formed(),
{
    let b0 = b[0];
    let b1 = b[1];
    assert(b0 & 0x0f <= 15) by (bit_vector);
    assert(b1 & 0x7f <= 127) by (bit_vector);
}

/// The error that decoding reports for the first `n` bytes of the wire form
/// of a header with `count` contributing sources.
pub open spec fn truncation_error(n: int, count: int) -> DecodeError {
    if n < 12 {
        DecodeError::TooShort
    } else if n < 12 + 4 * count {
        DecodeError::TruncatedCsrcList
    } else {
        DecodeError::TruncatedExtension
    }
}

/// Decoding a strict prefix of the wire form of a well-formed header fails,
/// and the error names the part of the header that was cut off.
pub proof fn lemma_truncated_prefix(m: HeaderModel, n: int)
    requires
        m.well_formed(),
        0 <= n < encoding(m).len(),
    ensures
        parse_spec(encoding(m).take(n)) == Err::<HeaderModel, DecodeError>(
            truncation_error(n, m.csrc_list.len() as int),
        ),
        decode_spec(encoding(m).take(n)) == Err::<HeaderModel, DecodeError>(
            truncation_error(n, m.csrc_list.len() as int),
        ),
{
    let b = encoding(m);
    let p = b.take(n);
    lemma_round_trip(m);
    if n >= 12 {
        assert(p[0] == b[0]);
        assert(extension_start(p) == extension_start(b));
        assert(extension_flag(p) == extension_flag(b));
        if n >= extension_start(b) + 4 {
            assert(p[extension_start(b) + 2] == b[extension_start(b) + 2]);
            assert(p[extension_start(b) + 3] == b[extension_start(b) + 3]);
            assert(extension_length_of(p) == extension_length_of(b));
        }
    }
}

/// Twelve bytes that announce no contributing source and no extension
/// decode to a header with an empty contributing source list.
pub proof fn lemma_fixed_header_alone(b: Seq<u8>)
    requires
        b.len() == 12,
        csrc_count_of(b) == 0,
        !extension_flag(b),
    ensures
        parse_spec(b) is Ok,
        parse_spec(b)->Ok_0.csrc_list.len() == 0,
        parse_spec(b)->Ok_0.header_extension is None,
{
}

} // verus!
