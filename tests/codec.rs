use moip_rtp::codec::{check_version, decode, encode, parse, DecodeError};
use moip_rtp::header::{Header, HeaderExtension, Version};
use moip_rtp::session::Session;
use moip_rtp::source::{ContributingSource, SynchronizationSource};

fn sample_header() -> Header {
    Header {
        version: Version::TWO,
        padding: true,
        extension: false,
        csrc_count: 1,
        marker: true,
        payload_type: 96,
        sequence_number: 0x1234,
        timestamp: 0xdead_beef,
        ssrc: SynchronizationSource(0x0102_0304),
        csrc_list: vec![ContributingSource(0xaabb_ccdd)],
        header_extension: None,
    }
}

fn header_with_extension() -> Header {
    Header {
        version: Version::TWO,
        padding: false,
        extension: true,
        csrc_count: 2,
        marker: false,
        payload_type: 0,
        sequence_number: 65535,
        timestamp: 0,
        ssrc: SynchronizationSource(u32::MAX),
        csrc_list: vec![ContributingSource(1), ContributingSource(2)],
        header_extension: Some(HeaderExtension {
            defined_by_profile: 0xbede,
            length: 2,
            body: vec![1, 2, 3, 4, 5, 6, 7, 8],
        }),
    }
}

fn header_with_csrcs(n: u8) -> Header {
    let mut h = sample_header();
    h.csrc_count = n;
    h.csrc_list = (0..n as u32).map(|i| ContributingSource(0x1000_0000 + i)).collect();
    h
}

#[test]
fn encode_lays_out_bytes_big_endian() {
    let bytes = encode(&sample_header());
    assert_eq!(
        bytes,
        vec![
            0xa1, 0xe0, 0x12, 0x34, 0xde, 0xad, 0xbe, 0xef, 0x01, 0x02, 0x03, 0x04, 0xaa, 0xbb,
            0xcc, 0xdd
        ]
    );
}

#[test]
fn encode_writes_extension_after_csrc_list() {
    let bytes = encode(&header_with_extension());
    assert_eq!(bytes.len(), 12 + 8 + 4 + 8);
    assert_eq!(bytes[0], 0x92);
    assert_eq!(bytes[1], 0x00);
    assert_eq!(&bytes[12..20], &[0, 0, 0, 1, 0, 0, 0, 2]);
    assert_eq!(&bytes[20..24], &[0xbe, 0xde, 0x00, 0x02]);
    assert_eq!(&bytes[24..], &[1, 2, 3, 4, 5, 6, 7, 8]);
}

#[test]
fn round_trip_without_extension() {
    let h = sample_header();
    assert_eq!(decode(&encode(&h)), Ok(h));
}

#[test]
fn round_trip_with_extension() {
    let h = header_with_extension();
    assert_eq!(decode(&encode(&h)), Ok(h));
}

#[test]
fn round_trip_keeps_old_versions_when_parsed() {
    for version in [Version::ZERO, Version::ONE, Version::TWO, Version::RESERVED] {
        let mut h = header_with_extension();
        let mut bytes = encode(&h);
        bytes[0] = (bytes[0] & 0x3f) | (version.to_bits() << 6);
        h.version = version;
        assert_eq!(parse(&bytes), Ok(h));
    }
}

#[test]
fn empty_csrc_list_encodes_to_twelve_bytes() {
    let h = header_with_csrcs(0);
    let bytes = encode(&h);
    assert_eq!(bytes.len(), 12);
    assert_eq!(decode(&bytes), Ok(h));
}

#[test]
fn twelve_bytes_with_zero_count_decode_to_empty_list() {
    let mut bytes = vec![0u8; 12];
    bytes[0] = 0x80;
    let h = decode(&bytes).unwrap();
    assert_eq!(h.csrc_count, 0);
    assert!(h.csrc_list.is_empty());
    assert_eq!(h.header_extension, None);
    assert_eq!(h.ssrc, SynchronizationSource(0));
}

#[test]
fn fifteen_csrcs_encode_to_seventy_two_bytes() {
    let h = header_with_csrcs(15);
    let bytes = encode(&h);
    assert_eq!(bytes.len(), 72);
    assert_eq!(decode(&bytes), Ok(h));
}

#[test]
fn trailing_payload_is_not_part_of_the_header() {
    let h = sample_header();
    let mut bytes = encode(&h);
    bytes.extend_from_slice(&[9, 9, 9]);
    assert_eq!(decode(&bytes), Ok(h));
}

#[test]
fn every_strict_prefix_is_rejected_as_truncated() {
    let bytes = encode(&header_with_extension());
    for n in 0..bytes.len() {
        let expected = if n < 12 {
            DecodeError::TooShort
        } else if n < 20 {
            DecodeError::TruncatedCsrcList
        } else {
            DecodeError::TruncatedExtension
        };
        assert_eq!(parse(&bytes[..n]), Err(expected));
        assert_eq!(decode(&bytes[..n]), Err(expected));
    }
}

#[test]
fn empty_input_is_too_short() {
    assert_eq!(decode(&[]), Err(DecodeError::TooShort));
}

#[test]
fn count_beyond_buffer_is_truncated_csrc_list() {
    let mut bytes = vec![0u8; 12];
    bytes[0] = 0x83;
    bytes.extend_from_slice(&[0, 0, 0, 1, 0, 0, 0, 2]);
    assert_eq!(decode(&bytes), Err(DecodeError::TruncatedCsrcList));
}

#[test]
fn extension_flag_without_extension_is_truncated_extension() {
    let mut bytes = vec![0u8; 12];
    bytes[0] = 0x90;
    assert_eq!(decode(&bytes), Err(DecodeError::TruncatedExtension));
    bytes.extend_from_slice(&[0, 0, 0, 1, 1, 2, 3]);
    assert_eq!(decode(&bytes), Err(DecodeError::TruncatedExtension));
    bytes.push(4);
    let h = decode(&bytes).unwrap();
    assert_eq!(
        h.header_extension,
        Some(HeaderExtension {
            defined_by_profile: 0,
            length: 1,
            body: vec![1, 2, 3, 4]
        })
    );
}

#[test]
fn version_one_is_unsupported() {
    let mut bytes = vec![0u8; 12];
    bytes[0] = 0x40;
    assert_eq!(decode(&bytes), Err(DecodeError::UnsupportedVersion));
    let parsed = parse(&bytes).unwrap();
    assert_eq!(parsed.version, Version::ONE);
    assert_eq!(check_version(&parsed), Err(DecodeError::UnsupportedVersion));
}

#[test]
fn other_versions_are_unsupported() {
    for (byte, version) in [(0x00u8, Version::ZERO), (0xc0u8, Version::RESERVED)] {
        let mut bytes = vec![0u8; 12];
        bytes[0] = byte;
        assert_eq!(decode(&bytes), Err(DecodeError::UnsupportedVersion));
        assert_eq!(parse(&bytes).unwrap().version, version);
    }
}

#[test]
fn fields_are_read_from_their_bits() {
    let bytes = [
        0xb0u8, 0xff, 0x00, 0x01, 0x00, 0x00, 0x01, 0x00, 0xca, 0xfe, 0xba, 0xbe, 0x00, 0x07,
        0x00, 0x00,
    ];
    let h = decode(&bytes).unwrap();
    assert_eq!(h.version, Version::TWO);
    assert!(h.padding);
    assert!(h.extension);
    assert_eq!(h.csrc_count, 0);
    assert!(h.marker);
    assert_eq!(h.payload_type, 127);
    assert_eq!(h.sequence_number, 1);
    assert_eq!(h.timestamp, 256);
    assert_eq!(h.ssrc, SynchronizationSource(0xcafe_babe));
    assert_eq!(
        h.header_extension,
        Some(HeaderExtension {
            defined_by_profile: 7,
            length: 0,
            body: vec![]
        })
    );
}

#[test]
fn well_formedness_is_checked() {
    assert!(sample_header().is_well_formed());
    assert!(header_with_extension().is_well_formed());
    let mut h = sample_header();
    h.csrc_count = 2;
    assert!(!h.is_well_formed());
    let mut h = sample_header();
    h.payload_type = 128;
    assert!(!h.is_well_formed());
    let mut h = sample_header();
    h.extension = true;
    assert!(!h.is_well_formed());
    let mut h = header_with_extension();
    h.header_extension.as_mut().unwrap().body.pop();
    assert!(!h.is_well_formed());
    let mut h = header_with_csrcs(15);
    h.csrc_list.push(ContributingSource(0));
    h.csrc_count = 16;
    assert!(!h.is_well_formed());
}

#[test]
fn version_bits_round_trip() {
    for (bits, version) in [
        (0u8, Version::ZERO),
        (1, Version::ONE),
        (2, Version::TWO),
        (3, Version::RESERVED),
    ] {
        assert_eq!(version.to_bits(), bits);
        assert_eq!(Version::from_bits(bits), version);
    }
}

#[test]
fn mixer_header_round_trips_its_sources() {
    let mut session = Session::new();
    let s1 = session.add_new_source().unwrap();
    let s2 = session.add_new_source().unwrap();
    assert_ne!(s1, s2);
    let c1: ContributingSource = s1.into();
    let c2: ContributingSource = s2.into();
    let s3 = session.add_new_source().unwrap();
    let h = Header {
        version: Version::TWO,
        padding: false,
        extension: false,
        csrc_count: 2,
        marker: false,
        payload_type: 8,
        sequence_number: 100,
        timestamp: 160,
        ssrc: s3,
        csrc_list: vec![c1, c2],
        header_extension: None,
    };
    let decoded = decode(&encode(&h)).unwrap();
    assert_eq!(decoded.csrc_list, vec![c1, c2]);
    assert_eq!(decoded.ssrc, s3);
}
