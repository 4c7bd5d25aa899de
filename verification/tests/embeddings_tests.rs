use elid::embeddings::full_vector::{
    check_projection, decode_bits, decode_full32, decode_half16, decode_quant8,
    derive_projection_seed, encode_bits, encode_full32, encode_half16, encode_quant8, pack_levels,
    pack_value, unpack_levels, unpack_value,
};
use elid::embeddings::types::{check_embedding_dims, COMPRESSED_SEED, MAX_LENGTH_SEED};
use elid::embeddings::vector_simhash::derive_bit_seed;
use elid::embeddings::{
    code_to_bytes, decode, decode_full_vector, decode_sortable, decode_to_payload,
    elid_from_curve_code, elid_from_full_vector, elid_from_simhash, elid_hamming_distance,
    elid_metadata, encode_full_vector, encode_sortable, hamming_distance, is_reversible,
    simhash_from_bytes, simhash_to_bytes, DimensionMode, Elid, ElidError, FullVectorMetadata,
    Profile, ProfileInfo, QuantizedCoords, QuantizedValues, VectorPayload, VectorPrecision,
};

// ---------------------------------------------------------------------------
// Sortable base32hex
// ---------------------------------------------------------------------------

#[test]
fn test_roundtrip() {
    let original = vec![0x01, 0x23, 0x45, 0x67, 0x89, 0xab, 0xcd, 0xef];
    let encoded = encode_sortable(&original);
    let decoded = decode_sortable(&encoded).unwrap();
    assert_eq!(original, decoded);
}

#[test]
fn test_sort_order_preservation() {
    let bytes1 = vec![0x00, 0x00, 0x00, 0x01];
    let bytes2 = vec![0x00, 0x00, 0x00, 0x02];
    let bytes3 = vec![0x00, 0x00, 0x00, 0xFF];

    let enc1 = encode_sortable(&bytes1);
    let enc2 = encode_sortable(&bytes2);
    let enc3 = encode_sortable(&bytes3);

    assert!(enc1 < enc2);
    assert!(enc2 < enc3);
    assert!(enc1 < enc3);
}

#[test]
fn test_128_bit_length() {
    let bytes = vec![0u8; 16];
    let encoded = encode_sortable(&bytes);
    assert_eq!(encoded.len(), 26);
}

#[test]
fn test_100_bit_length() {
    let bytes = vec![0u8; 13];
    let encoded = encode_sortable(&bytes);
    assert_eq!(encoded.len(), 21);
}

#[test]
fn test_lowercase_alphabet() {
    let bytes = vec![0xFF; 8];
    let encoded = encode_sortable(&bytes);
    assert!(encoded
        .chars()
        .all(|c| c.is_ascii_lowercase() || c.is_ascii_digit()));
}

#[test]
fn test_no_padding() {
    let bytes = vec![0x01, 0x02, 0x03];
    let encoded = encode_sortable(&bytes);
    assert!(!encoded.contains('='));
}

#[test]
fn test_invalid_encoding() {
    let result = decode_sortable("xyz123");
    assert!(result.is_err());
    match result {
        Err(ElidError::InvalidEncoding) => {}
        _ => panic!("Expected InvalidEncoding error"),
    }
}

#[test]
fn sortable_matches_rfc4648_vectors() {
    assert_eq!(encode_sortable(b""), "");
    assert_eq!(encode_sortable(b"f"), "co");
    assert_eq!(encode_sortable(b"fo"), "cpng");
    assert_eq!(encode_sortable(b"foo"), "cpnmu");
    assert_eq!(encode_sortable(b"foob"), "cpnmuog");
    assert_eq!(encode_sortable(b"fooba"), "cpnmuoj1");
    assert_eq!(encode_sortable(b"foobar"), "cpnmuoj1e8");
    assert_eq!(decode_sortable("cpnmuoj1e8").unwrap(), b"foobar".to_vec());
}

#[test]
fn sortable_order_across_lengths() {
    // A proper prefix sorts first, and so does its encoding.
    assert!(encode_sortable(&[0x00]) < encode_sortable(&[0x00, 0x00]));
    assert!(encode_sortable(b"foo") < encode_sortable(b"foobar"));
    assert!(encode_sortable(&[0xff]) < encode_sortable(&[0xff, 0x00]));
    // Where they first differ, the smaller byte wins whatever the lengths.
    assert!(encode_sortable(&[0x01, 0xff, 0xff]) < encode_sortable(&[0x02]));
    assert!(encode_sortable(&[0x7f]) < encode_sortable(&[0x80, 0x00, 0x00, 0x00]));
    let mut samples: Vec<Vec<u8>> = vec![
        vec![0x10, 0x00],
        vec![0x0f],
        vec![0x10],
        vec![],
        vec![0x0f, 0xff, 0x01],
        vec![0xff],
    ];
    samples.sort();
    let encoded: Vec<String> = samples.iter().map(|b| encode_sortable(b)).collect();
    let mut sorted = encoded.clone();
    sorted.sort();
    assert_eq!(encoded, sorted);
}

#[test]
fn sortable_eight_bytes_take_thirteen_chars() {
    let bytes = vec![0x01, 0x23, 0x45, 0x67, 0x89, 0xab, 0xcd, 0xef];
    let encoded = encode_sortable(&bytes);
    assert_eq!(encoded, "04hkaps9lf6uu");
    assert_eq!(encoded.len(), 13);
    assert_eq!(decode_sortable(&encoded).unwrap(), bytes);
}

#[test]
fn sortable_rejects_non_canonical_text() {
    // Trailing bits that encode nothing must be zero.
    assert!(matches!(decode_sortable("cp"), Err(ElidError::InvalidEncoding)));
    assert!(matches!(decode_sortable("CO"), Err(ElidError::InvalidEncoding)));
    assert!(matches!(decode_sortable("co=="), Err(ElidError::InvalidEncoding)));
}

// ---------------------------------------------------------------------------
// Elid
// ---------------------------------------------------------------------------

#[test]
fn test_elid_valid_string() {
    let id = Elid::from_string("0123456789abcdefghijklmnopqrstuv".to_string());
    assert!(id.is_ok());
    assert_eq!(id.unwrap().as_str(), "0123456789abcdefghijklmnopqrstuv");
}

#[test]
fn test_elid_invalid_chars() {
    let id = Elid::from_string("0123456789abcdefghijklmnopqrstuvw".to_string());
    assert!(matches!(id, Err(ElidError::InvalidEncoding)));
}

#[test]
fn test_elid_ordering() {
    let id1 = Elid::from_string("00000000".to_string()).unwrap();
    let id2 = Elid::from_string("00000001".to_string()).unwrap();
    assert!(id1 < id2);
}

#[test]
fn elid_profile_reads_header() {
    let e = elid_from_simhash(0x1234);
    let info = e.profile().unwrap();
    assert_eq!(info.profile_type, 1);
    assert_eq!(info.version, 0);
    let short = Elid::from_string("00".to_string()).unwrap();
    assert!(matches!(short.profile(), Err(ElidError::InvalidHeader)));
}

// ---------------------------------------------------------------------------
// Profile
// ---------------------------------------------------------------------------

#[test]
fn test_profile_default() {
    let profile = Profile::default();
    assert_eq!(
        profile,
        Profile::Mini128 {
            seed: 0x454c4944_53494d48
        }
    );
}

#[test]
fn test_profile_bit_length() {
    let mini = Profile::Mini128 { seed: 0 };
    assert_eq!(mini.bit_length(), 128);

    let morton = Profile::Morton10x10 {
        dims: 10,
        bits_per_dim: 10,
        transform_id: None,
    };
    assert_eq!(morton.bit_length(), 100);

    let hilbert = Profile::Hilbert10x10 {
        dims: 8,
        bits_per_dim: 12,
        transform_id: None,
    };
    assert_eq!(hilbert.bit_length(), 96);
}

#[test]
fn test_profile_string_length() {
    let mini = Profile::Mini128 { seed: 0 };
    assert_eq!(mini.string_length(), 29);

    let morton = Profile::Morton10x10 {
        dims: 10,
        bits_per_dim: 10,
        transform_id: None,
    };
    assert_eq!(morton.string_length(), 24);
}

#[test]
fn test_profile_type_id() {
    assert_eq!(Profile::Mini128 { seed: 0 }.type_id(), 0x01);
    assert_eq!(
        Profile::Morton10x10 {
            dims: 10,
            bits_per_dim: 10,
            transform_id: None
        }
        .type_id(),
        0x02
    );
    assert_eq!(
        Profile::Hilbert10x10 {
            dims: 10,
            bits_per_dim: 10,
            transform_id: None
        }
        .type_id(),
        0x03
    );
}

#[test]
fn test_profile_lossless() {
    let profile = Profile::lossless();
    match profile {
        Profile::FullVector {
            precision,
            dimensions,
            ..
        } => {
            assert_eq!(precision, VectorPrecision::Full32);
            assert_eq!(dimensions, DimensionMode::Preserve);
        }
        _ => panic!("Expected FullVector profile"),
    }
}

#[test]
fn test_profile_max_length() {
    let profile = Profile::max_length(100, 768);
    match profile {
        Profile::FullVector { .. } => {
            let string_len = profile.string_length_for_dims(768);
            assert!(
                string_len <= 100,
                "String length {} exceeds max {}",
                string_len,
                100
            );
        }
        _ => panic!("Expected FullVector profile"),
    }
}

#[test]
fn test_profile_cross_dimensional() {
    let profile = Profile::cross_dimensional(128);
    match profile {
        Profile::FullVector {
            precision,
            dimensions,
            ..
        } => {
            assert_eq!(precision, VectorPrecision::Half16);
            assert_eq!(dimensions, DimensionMode::Common { dims: 128 });
        }
        _ => panic!("Expected FullVector profile"),
    }
}

#[test]
fn profile_max_length_choices() {
    // 100 chars leave 400 payload bits: Full32 keeps only 12 dims, Half16
    // keeps 25 (at least 16), so Half16 reduced to 25.
    assert_eq!(
        Profile::max_length(100, 768),
        Profile::FullVector {
            precision: VectorPrecision::Half16,
            dimensions: DimensionMode::Reduce { target_dims: 25 },
            seed: MAX_LENGTH_SEED,
        }
    );
    // 23 chars leave 15 bits: every depth keeps fewer than 16 dims, so 1 bit
    // per dimension for 15 of them.
    assert_eq!(
        Profile::max_length(23, 768),
        Profile::FullVector {
            precision: VectorPrecision::Bits { bits: 1 },
            dimensions: DimensionMode::Reduce { target_dims: 15 },
            seed: MAX_LENGTH_SEED,
        }
    );
    // Plenty of room: lossless.
    assert_eq!(Profile::max_length(20 + 768 * 32 / 5 + 1, 768), Profile::lossless());
    // No room beyond the header.
    assert_eq!(
        Profile::max_length(10, 768),
        Profile::FullVector {
            precision: VectorPrecision::Bits { bits: 1 },
            dimensions: DimensionMode::Reduce { target_dims: 1 },
            seed: MAX_LENGTH_SEED,
        }
    );
    // 420 chars leave 2000 bits: Full32 keeps 62 of 128 dims.
    assert_eq!(
        Profile::max_length(420, 128),
        Profile::FullVector {
            precision: VectorPrecision::Full32,
            dimensions: DimensionMode::Reduce { target_dims: 62 },
            seed: MAX_LENGTH_SEED,
        }
    );
    // 60 chars leave 200 bits: Full32 keeps 6 dims, Half16 12, and Quant8,
    // after its 64-bit range, 17 (at least 16), so Quant8 reduced to 17.
    assert_eq!(
        Profile::max_length(60, 768),
        Profile::FullVector {
            precision: VectorPrecision::Quant8,
            dimensions: DimensionMode::Reduce { target_dims: 17 },
            seed: MAX_LENGTH_SEED,
        }
    );
    // 50 chars leave 150 bits: after the 64-bit range, Quant8 keeps 10 and
    // 4 bits keep 20, so 4 bits reduced to 20.
    assert_eq!(
        Profile::max_length(50, 768),
        Profile::FullVector {
            precision: VectorPrecision::Bits { bits: 4 },
            dimensions: DimensionMode::Reduce { target_dims: 20 },
            seed: MAX_LENGTH_SEED,
        }
    );
    // 25 chars leave 25 bits, too few for any layout with its range, but
    // enough for one bit for each of 20 dimensions: all are kept.
    assert_eq!(
        Profile::max_length(25, 20),
        Profile::FullVector {
            precision: VectorPrecision::Bits { bits: 1 },
            dimensions: DimensionMode::Preserve,
            seed: MAX_LENGTH_SEED,
        }
    );
    for (chars, dims) in [(36usize, 768u16), (50, 768), (100, 768), (400, 300), (3000, 2048)] {
        let p = Profile::max_length(chars, dims);
        assert!(p.string_length_for_dims(dims) <= chars);
    }
}

/// A payload of `n` values in the layout of `precision`.
fn payload_for(precision: VectorPrecision, n: usize) -> VectorPayload {
    match precision {
        VectorPrecision::Full32 => VectorPayload::Full32((0..n as u32).collect()),
        VectorPrecision::Half16 => VectorPayload::Half16((0..n as u16).collect()),
        _ => VectorPayload::Quantized(QuantizedValues {
            min_bits: 0xBF80_0000,
            max_bits: 0x3F80_0000,
            levels: vec![1; n],
        }),
    }
}

#[test]
fn max_length_identifiers_fit() {
    for dims in [64u16, 300, 768, 2048] {
        for chars in [36usize, 40, 45, 50, 60, 75, 100, 150, 400, 1000, 5000, 20000] {
            let profile = Profile::max_length(chars, dims);
            let (precision, dimensions, seed) = match profile {
                Profile::FullVector { precision, dimensions, seed } => (precision, dimensions, seed),
                _ => panic!("Expected FullVector profile"),
            };
            let n = dimensions.output_dims(dims) as usize;
            let e = elid_from_full_vector(dims, precision, dimensions, seed, &payload_for(precision, n))
                .unwrap();
            assert!(
                e.as_str().len() <= chars,
                "ELID length {} exceeds max {} ({} dims)",
                e.as_str().len(),
                chars,
                dims
            );
            assert_eq!(e.as_str().len(), profile.string_length_for_dims(dims));
        }
    }
}

#[test]
fn quantized_lengths_count_the_range() {
    let q8 = Profile::FullVector {
        precision: VectorPrecision::Quant8,
        dimensions: DimensionMode::Reduce { target_dims: 25 },
        seed: MAX_LENGTH_SEED,
    };
    assert_eq!(q8.bit_length_for_dims(768), 64 + 25 * 8);
    assert_eq!(q8.string_length_for_dims(768), (96 + 64 + 200 + 4) / 5);
    let b3 = Profile::FullVector {
        precision: VectorPrecision::Bits { bits: 3 },
        dimensions: DimensionMode::Reduce { target_dims: 5 },
        seed: MAX_LENGTH_SEED,
    };
    // 15 bits of levels take 2 whole bytes.
    assert_eq!(b3.bit_length_for_dims(768), 64 + 16);
}

#[test]
fn profile_compressed_ladder() {
    // 768 dims at 50%: Full32 affords 384 dims (>= 192): Full32 reduced.
    assert_eq!(
        Profile::compressed_from_targets(384, 768, 1536, 768),
        Profile::FullVector {
            precision: VectorPrecision::Full32,
            dimensions: DimensionMode::Reduce { target_dims: 384 },
            seed: COMPRESSED_SEED,
        }
    );
    assert_eq!(Profile::compressed_from_targets(768, 1536, 3072, 768), Profile::lossless());
    // 10%: Full32 affords 77 (< 192), Half16 154 (< 192), so Quant8 with 307.
    assert_eq!(
        Profile::compressed_from_targets(77, 154, 307, 768),
        Profile::FullVector {
            precision: VectorPrecision::Quant8,
            dimensions: DimensionMode::Reduce { target_dims: 307 },
            seed: COMPRESSED_SEED,
        }
    );
    // 20%: Half16 affords 307 (>= 192).
    assert_eq!(
        Profile::compressed_from_targets(154, 307, 614, 768),
        Profile::FullVector {
            precision: VectorPrecision::Half16,
            dimensions: DimensionMode::Reduce { target_dims: 307 },
            seed: COMPRESSED_SEED,
        }
    );
}

#[test]
fn profile_reversibility_and_lengths() {
    assert!(!Profile::default().is_reversible());
    assert!(Profile::lossless().is_reversible());
    assert_eq!(Profile::lossless().bit_length(), 768 * 32);
    assert_eq!(Profile::lossless().string_length_for_dims(128), (128 * 32 + 96 + 4) / 5);
    assert_eq!(Profile::cross_dimensional(128).bit_length_for_dims(999), 128 * 16);
    assert_eq!(Profile::lossless().type_id(), 0x04);
}

// ---------------------------------------------------------------------------
// Precision and dimension modes
// ---------------------------------------------------------------------------

#[test]
fn precision_validation_and_bits() {
    assert_eq!(VectorPrecision::Full32.bits_per_dim(), 32);
    assert_eq!(VectorPrecision::Half16.bits_per_dim(), 16);
    assert_eq!(VectorPrecision::Quant8.bits_per_dim(), 8);
    assert_eq!(VectorPrecision::Bits { bits: 5 }.bits_per_dim(), 5);
    assert!(VectorPrecision::Bits { bits: 32 }.validate().is_ok());
    match (VectorPrecision::Bits { bits: 0 }).validate() {
        Err(ElidError::InvalidPrecision(m)) => assert_eq!(m, "Bits must be 1-32, got 0"),
        _ => panic!("expected InvalidPrecision"),
    }
    match (VectorPrecision::Bits { bits: 200 }).validate() {
        Err(ElidError::InvalidPrecision(m)) => assert_eq!(m, "Bits must be 1-32, got 200"),
        _ => panic!("expected InvalidPrecision"),
    }
    assert_eq!(VectorPrecision::default(), VectorPrecision::Full32);
    assert_eq!(VectorPrecision::Bits { bits: 3 }.name(), "Bits");
}

#[test]
fn dimension_mode_validation() {
    assert_eq!(DimensionMode::Preserve.output_dims(700), 700);
    assert_eq!(DimensionMode::Reduce { target_dims: 12 }.output_dims(700), 12);
    assert_eq!(DimensionMode::Common { dims: 9 }.output_dims(700), 9);
    assert!(DimensionMode::Reduce { target_dims: 12 }.validate(700).is_ok());
    assert!(matches!(
        DimensionMode::Reduce { target_dims: 0 }.validate(700),
        Err(ElidError::InvalidDimension { got: 0, expected_range: (1, 700) })
    ));
    match (DimensionMode::Reduce { target_dims: 700 }).validate(700) {
        Err(ElidError::ProjectionError(m)) => {
            assert_eq!(m, "Target dims 700 must be less than input dims 700")
        }
        _ => panic!("expected ProjectionError"),
    }
    assert!(matches!(
        DimensionMode::Common { dims: 0 }.validate(5),
        Err(ElidError::InvalidDimension { got: 0, expected_range: (1, 2048) })
    ));
    assert_eq!(DimensionMode::default(), DimensionMode::Preserve);
    assert_eq!(DimensionMode::Common { dims: 1 }.name(), "Common");
}

#[test]
fn embedding_dimension_check() {
    assert!(check_embedding_dims(64).is_ok());
    assert!(check_embedding_dims(2048).is_ok());
    assert!(matches!(
        check_embedding_dims(32),
        Err(ElidError::InvalidDimension { got: 32, expected_range: (64, 2048) })
    ));
    assert!(matches!(check_embedding_dims(4096), Err(ElidError::InvalidDimension { .. })));
}

#[test]
fn quantized_coords_parameter_checks() {
    assert!(QuantizedCoords::check_params(10, 10, 128).is_ok());
    assert!(matches!(
        QuantizedCoords::check_params(0, 10, 128),
        Err(ElidError::InvalidDimension { .. })
    ));
    assert!(matches!(
        QuantizedCoords::check_params(33, 10, 128),
        Err(ElidError::InvalidDimension { .. })
    ));
    assert!(matches!(
        QuantizedCoords::check_params(10, 0, 128),
        Err(ElidError::InvalidDimension { .. })
    ));
    assert!(matches!(
        QuantizedCoords::check_params(10, 17, 128),
        Err(ElidError::InvalidDimension { .. })
    ));
    let q = QuantizedCoords::from_levels(vec![1, 2, 3], 10);
    assert_eq!(q.as_slice(), &[1, 2, 3]);
    assert_eq!(q.bits_per_dim(), 10);
    assert_eq!(q.len(), 3);
    assert!(!q.is_empty());
}

// ---------------------------------------------------------------------------
// ProfileInfo
// ---------------------------------------------------------------------------

#[test]
fn test_profile_info_basic_header() {
    let header = vec![0x01, 0x00];
    let info = ProfileInfo::from_header(&header).unwrap();
    assert_eq!(info.version, 0);
    assert_eq!(info.profile_type, 1);
    assert_eq!(info.transform_id, None);
}

#[test]
fn test_profile_info_extended_header() {
    let header = vec![0x12, 0x00, 0x00, 0xFF];
    let info = ProfileInfo::from_header(&header).unwrap();
    assert_eq!(info.version, 1);
    assert_eq!(info.profile_type, 2);
    assert_eq!(info.transform_id, Some(255));
}

#[test]
fn test_profile_info_to_header() {
    let info = ProfileInfo {
        version: 1,
        profile_type: 3,
        transform_id: Some(0x1234),
        model_id: None,
        original_dims: None,
        precision: None,
        dimension_mode: None,
        seed: None,
    };
    let header = info.to_header();
    assert_eq!(header[0], 0x13);
    assert_eq!(header[1], 0x00);
    assert_eq!(header[2..4], [0x12, 0x34]);
}

#[test]
fn test_profile_info_roundtrip() {
    let info = ProfileInfo {
        version: 2,
        profile_type: 1,
        transform_id: Some(42),
        model_id: None,
        original_dims: None,
        precision: None,
        dimension_mode: None,
        seed: None,
    };
    let header = info.to_header();
    let decoded = ProfileInfo::from_header(&header).unwrap();
    assert_eq!(decoded.version, info.version);
    assert_eq!(decoded.profile_type, info.profile_type);
    assert_eq!(decoded.transform_id, info.transform_id);
}

#[test]
fn test_profile_info_full_vector_roundtrip() {
    let info = ProfileInfo::from_full_vector(
        768,
        VectorPrecision::Half16,
        DimensionMode::Reduce { target_dims: 256 },
        0x12345678,
    );
    let header = info.to_header();
    assert_eq!(header.len(), 12);

    let decoded = ProfileInfo::from_header(&header).unwrap();
    assert_eq!(decoded.version, 0);
    assert_eq!(decoded.profile_type, 0x04);
    assert_eq!(decoded.original_dims, Some(768));
    assert_eq!(decoded.precision, Some(VectorPrecision::Half16));
    assert_eq!(
        decoded.dimension_mode,
        Some(DimensionMode::Reduce { target_dims: 256 })
    );
    assert_eq!(decoded.seed, Some(0x12345678));
}

#[test]
fn test_profile_info_invalid_header() {
    let header = vec![0x01];
    assert!(matches!(
        ProfileInfo::from_header(&header),
        Err(ElidError::InvalidHeader)
    ));
}

#[test]
fn test_profile_info_full_vector_short_header() {
    let header = vec![0x04, 0x00, 0x00, 0x00];
    assert!(matches!(
        ProfileInfo::from_header(&header),
        Err(ElidError::InvalidHeader)
    ));
}

#[test]
fn profile_info_header_keeps_low_seed_bits_and_rejects_bad_bytes() {
    let info = ProfileInfo::from_full_vector(
        5,
        VectorPrecision::Bits { bits: 7 },
        DimensionMode::Common { dims: 300 },
        0xAABB_CCDD_1122_3344,
    );
    let header = info.to_header();
    assert_eq!(
        header,
        vec![0x04, 0x00, 0x00, 0x05, 0x0A, 0x02, 0x01, 0x2C, 0x11, 0x22, 0x33, 0x44]
    );
    let decoded = ProfileInfo::from_header(&header).unwrap();
    assert_eq!(decoded.seed, Some(0x1122_3344));
    assert_eq!(decoded.precision, Some(VectorPrecision::Bits { bits: 7 }));

    // Precision byte n from 3 on is a custom depth of n - 3 bits.
    let info = ProfileInfo::from_header(&[0x04, 0x00, 0x00, 0x40, 0x05, 0, 0, 0, 0, 0, 0, 0]).unwrap();
    assert_eq!(info.precision, Some(VectorPrecision::Bits { bits: 2 }));
    assert_eq!(info.original_dims, Some(64));
    assert_eq!(info.dimension_mode, Some(DimensionMode::Preserve));
    assert_eq!(info.seed, Some(0));
    let top = ProfileInfo::from_header(&[0x04, 0x00, 0x00, 0x40, 35, 0, 0, 0, 0, 0, 0, 0]).unwrap();
    assert_eq!(top.precision, Some(VectorPrecision::Bits { bits: 32 }));

    let mut bad = header.clone();
    bad[4] = 36;
    match ProfileInfo::from_header(&bad) {
        Err(ElidError::InvalidMetadata(m)) => assert_eq!(m, "Invalid precision type"),
        _ => panic!("expected InvalidMetadata"),
    }
    let mut bad = header.clone();
    bad[5] = 3;
    match ProfileInfo::from_header(&bad) {
        Err(ElidError::InvalidMetadata(m)) => assert_eq!(m, "Invalid dimension mode"),
        _ => panic!("expected InvalidMetadata"),
    }
}

// ---------------------------------------------------------------------------
// 128-bit SimHash values
// ---------------------------------------------------------------------------

#[test]
fn test_hamming_distance_identical() {
    let a = 0xDEAD_BEEF_CAFE_BABE_1234_5678_9ABC_DEF0_u128;
    assert_eq!(elid_hamming_distance(a, a), 0);
}

#[test]
fn test_hamming_distance_one_bit() {
    let a = 0b0000_u128;
    let b = 0b0001_u128;
    assert_eq!(elid_hamming_distance(a, b), 1);
}

#[test]
fn test_hamming_distance_all_bits() {
    let a = 0_u128;
    let b = !0_u128;
    assert_eq!(elid_hamming_distance(a, b), 128);
}

#[test]
fn test_hamming_distance_symmetric() {
    let a = 0x1234_5678_u128;
    let b = 0x9ABC_DEF0_u128;
    assert_eq!(elid_hamming_distance(a, b), elid_hamming_distance(b, a));
}

#[test]
fn test_hamming_distance_known_pattern() {
    let a = 0b1010_u128;
    let b = 0b1100_u128;
    assert_eq!(elid_hamming_distance(a, b), 2);
}

#[test]
fn test_simhash_to_bytes_basic() {
    let hash = 0x0102030405060708090A0B0C0D0E0F10_u128;
    let bytes = simhash_to_bytes(hash);

    assert_eq!(bytes.len(), 16);
    assert_eq!(bytes[0], 0x01);
    assert_eq!(bytes[15], 0x10);
}

#[test]
fn test_simhash_from_bytes_valid() {
    let bytes = [
        0x01, 0x02, 0x03, 0x04, 0x05, 0x06, 0x07, 0x08, 0x09, 0x0A, 0x0B, 0x0C, 0x0D, 0x0E,
        0x0F, 0x10,
    ];

    let hash = simhash_from_bytes(&bytes).unwrap();
    assert_eq!(hash, 0x0102030405060708090A0B0C0D0E0F10_u128);
}

#[test]
fn test_simhash_from_bytes_invalid_length() {
    let too_short = [0u8; 8];
    assert!(simhash_from_bytes(&too_short).is_err());

    let too_long = [0u8; 32];
    assert!(simhash_from_bytes(&too_long).is_err());

    let empty: [u8; 0] = [];
    assert!(simhash_from_bytes(&empty).is_err());
}

#[test]
fn test_simhash_bytes_roundtrip() {
    let test_hashes = vec![
        0_u128,
        !0_u128,
        0xDEADBEEFCAFEBABE1234567890ABCDEF_u128,
        0x0000000000000000FFFFFFFFFFFFFFFF_u128,
        0x5555555555555555AAAAAAAAAAAAAAAA_u128,
    ];

    for hash in test_hashes {
        let bytes = simhash_to_bytes(hash);
        let recovered = simhash_from_bytes(&bytes).unwrap();
        assert_eq!(hash, recovered, "Round-trip failed for 0x{:032x}", hash);
    }
}

// ---------------------------------------------------------------------------
// Seeds
// ---------------------------------------------------------------------------

#[test]
fn test_derive_bit_seed_deterministic() {
    let seed1 = derive_bit_seed(0x1234_5678_9ABC_DEF0, 0);
    let seed2 = derive_bit_seed(0x1234_5678_9ABC_DEF0, 0);
    assert_eq!(seed1, seed2);
}

#[test]
fn test_derive_bit_seed_different_bits() {
    let seed0 = derive_bit_seed(0x1234_5678_9ABC_DEF0, 0);
    let seed1 = derive_bit_seed(0x1234_5678_9ABC_DEF0, 1);
    assert_ne!(seed0, seed1);
}

#[test]
fn test_derive_bit_seed_different_base() {
    let seed_a = derive_bit_seed(0x1111_1111_1111_1111, 0);
    let seed_b = derive_bit_seed(0x2222_2222_2222_2222, 0);
    assert_ne!(seed_a, seed_b);
}

#[test]
fn test_derive_bit_seed_coverage() {
    let base = 0x454c4944_53494d48;
    let mut seeds = std::collections::HashSet::new();

    for bit_idx in 0..128 {
        let seed = derive_bit_seed(base, bit_idx);
        assert!(seeds.insert(seed), "Duplicate seed at bit {}", bit_idx);
    }
}

#[test]
fn seeds_are_blake3_digests_of_little_endian_inputs() {
    let base: u64 = 0x0102_0304_0506_0708;
    let mut input = base.to_le_bytes().to_vec();
    input.push(77);
    assert_eq!(derive_bit_seed(base, 77), *blake3::hash(&input).as_bytes());

    let mut input = base.to_le_bytes().to_vec();
    input.extend_from_slice(&768u16.to_le_bytes());
    input.extend_from_slice(&5u16.to_le_bytes());
    assert_eq!(derive_projection_seed(base, 768, 5), *blake3::hash(&input).as_bytes());
    assert_ne!(derive_projection_seed(base, 768, 5), derive_projection_seed(base, 768, 6));
}

#[test]
fn projection_dimension_checks() {
    assert!(check_projection(768, 256).is_ok());
    assert!(check_projection(768, 768).is_ok());
    match check_projection(768, 0) {
        Err(ElidError::ProjectionError(m)) => assert_eq!(m, "Target dimensions must be > 0"),
        _ => panic!("expected ProjectionError"),
    }
    match check_projection(2048, 4096) {
        Err(ElidError::ProjectionError(m)) => {
            assert_eq!(m, "Cannot project to higher dimensions: 2048 -> 4096")
        }
        _ => panic!("expected ProjectionError"),
    }
}

// ---------------------------------------------------------------------------
// Payload codecs
// ---------------------------------------------------------------------------

#[test]
fn test_bits_packing() {
    let mut bytes = vec![0u8; 3];

    pack_value(&mut bytes, 0b1010, 0, 4);
    pack_value(&mut bytes, 0b0101, 4, 4);
    pack_value(&mut bytes, 0b1100, 8, 4);
    pack_value(&mut bytes, 0b0011, 12, 4);
    pack_value(&mut bytes, 0b1111, 16, 4);

    assert_eq!(unpack_value(&bytes, 0, 4), 0b1010);
    assert_eq!(unpack_value(&bytes, 4, 4), 0b0101);
    assert_eq!(unpack_value(&bytes, 8, 4), 0b1100);
    assert_eq!(unpack_value(&bytes, 12, 4), 0b0011);
    assert_eq!(unpack_value(&bytes, 16, 4), 0b1111);
}

#[test]
fn packing_spans_bytes_and_truncates_at_the_end() {
    let mut bytes = vec![0u8; 2];
    pack_value(&mut bytes, 0b1_0110_1011, 3, 9);
    assert_eq!(bytes, vec![0b0001_0110, 0b1011_0000]);
    assert_eq!(unpack_value(&bytes, 3, 9), 0b1_0110_1011);
    // Only 5 of the 9 bits lie within the bytes.
    assert_eq!(unpack_value(&bytes, 11, 9), 0b1_0000);
    assert_eq!(unpack_value(&bytes, 16, 9), 0);
    // Bits past the end are dropped when packing.
    let mut short = vec![0u8; 1];
    pack_value(&mut short, 0xFFFF, 4, 16);
    assert_eq!(short, vec![0x0F]);
    // 32-bit fields.
    let mut wide = vec![0u8; 5];
    pack_value(&mut wide, 0xDEAD_BEEF, 4, 32);
    assert_eq!(unpack_value(&wide, 4, 32), 0xDEAD_BEEF);
}

#[test]
fn level_packing_roundtrip() {
    let levels: Vec<u32> = vec![0, 1, 2, 3, 4, 5, 6, 7, 5, 3];
    let packed = pack_levels(&levels, 3);
    assert_eq!(packed.len(), 4);
    assert_eq!(unpack_levels(&packed, 3, levels.len()), levels);
    let ones: Vec<u32> = vec![1, 0, 1, 1];
    assert_eq!(pack_levels(&ones, 1), vec![0b1011_0000]);
}

#[test]
fn full32_codec() {
    let values = vec![0.123456f32, -0.987654, std::f32::consts::PI, 0.0];
    let bits: Vec<u32> = values.iter().map(|v| v.to_bits()).collect();
    let encoded = encode_full32(&bits);
    assert_eq!(encoded.len(), 16);
    assert_eq!(encoded[0..4], 0.123456f32.to_be_bytes());
    let decoded = decode_full32(&encoded).unwrap();
    let back: Vec<f32> = decoded.iter().map(|b| f32::from_bits(*b)).collect();
    assert_eq!(values, back);
    assert!(matches!(decode_full32(&[1, 2, 3]), Err(ElidError::InvalidEncoding)));
}

#[test]
fn half16_codec() {
    let bits: Vec<u16> = vec![0x3C00, 0xBC00, 0x0001];
    let encoded = encode_half16(&bits);
    assert_eq!(encoded, vec![0x3C, 0x00, 0xBC, 0x00, 0x00, 0x01]);
    assert_eq!(decode_half16(&encoded).unwrap(), bits);
    assert!(matches!(decode_half16(&[1]), Err(ElidError::InvalidEncoding)));
}

#[test]
fn quant8_codec() {
    let levels: Vec<u32> = vec![0, 128, 255];
    let encoded = encode_quant8(&levels, 0xBF80_0000, 0x3F80_0000);
    assert_eq!(encoded, vec![0xBF, 0x80, 0, 0, 0x3F, 0x80, 0, 0, 0, 128, 255]);
    let q = decode_quant8(&encoded).unwrap();
    assert_eq!(q.min_bits, 0xBF80_0000);
    assert_eq!(q.max_bits, 0x3F80_0000);
    assert_eq!(q.levels, levels);
    assert!(matches!(
        decode_quant8(&[0; 7]),
        Err(ElidError::InsufficientData { expected: 8, got: 7 })
    ));
}

#[test]
fn bits_codec() {
    let levels: Vec<u32> = vec![15, 0, 7, 8, 1];
    let encoded = encode_bits(&levels, 4, 1, 2).unwrap();
    assert_eq!(encoded, vec![0, 0, 0, 1, 0, 0, 0, 2, 0xF0, 0x78, 0x10]);
    let q = decode_bits(&encoded, 4, levels.len()).unwrap();
    assert_eq!((q.min_bits, q.max_bits), (1, 2));
    assert_eq!(q.levels, levels);
    assert!(matches!(encode_bits(&levels, 0, 1, 2), Err(ElidError::InvalidPrecision(_))));
    assert!(matches!(encode_bits(&levels, 33, 1, 2), Err(ElidError::InvalidPrecision(_))));
    assert!(matches!(
        decode_bits(&[0; 3], 4, 1),
        Err(ElidError::InsufficientData { expected: 8, got: 3 })
    ));
}

// ---------------------------------------------------------------------------
// Full vector encoding
// ---------------------------------------------------------------------------

fn full32_payload(n: usize) -> (Vec<f32>, VectorPayload) {
    let values: Vec<f32> = (0..n).map(|i| (i as f32 / 64.0) - 1.0).collect();
    let bits = values.iter().map(|v| v.to_bits()).collect();
    (values, VectorPayload::Full32(bits))
}

#[test]
fn full_vector_lossless_roundtrip() {
    let (values, payload) = full32_payload(128);
    let encoded =
        encode_full_vector(128, VectorPrecision::Full32, DimensionMode::Preserve, 0, &payload)
            .unwrap();
    assert_eq!(encoded.len(), 12 + 128 * 4);
    let (decoded, metadata) = decode_full_vector(&encoded).unwrap();
    match decoded {
        VectorPayload::Full32(bits) => {
            let back: Vec<f32> = bits.iter().map(|b| f32::from_bits(*b)).collect();
            assert_eq!(values, back);
        }
        _ => panic!("expected Full32 payload"),
    }
    assert!(metadata.is_lossless());
    assert!(!metadata.has_dimension_reduction());
    assert_eq!(metadata.original_dims, 128);
    assert_eq!(metadata.encoded_dims, 128);
}

#[test]
fn full_vector_reduced_quantized_roundtrip() {
    let levels: Vec<u32> = (0..256u32).map(|i| i % 64).collect();
    let payload = VectorPayload::Quantized(QuantizedValues {
        min_bits: 0xBF80_0000,
        max_bits: 0x3F80_0000,
        levels: levels.clone(),
    });
    let encoded = encode_full_vector(
        768,
        VectorPrecision::Bits { bits: 6 },
        DimensionMode::Reduce { target_dims: 256 },
        0x1_2345_6789,
        &payload,
    )
    .unwrap();
    let (decoded, metadata) = decode_full_vector(&encoded).unwrap();
    match decoded {
        VectorPayload::Quantized(q) => assert_eq!(q.levels, levels),
        _ => panic!("expected quantized payload"),
    }
    assert_eq!(
        metadata,
        FullVectorMetadata {
            original_dims: 768,
            encoded_dims: 256,
            precision: VectorPrecision::Bits { bits: 6 },
            dimension_mode: DimensionMode::Reduce { target_dims: 256 },
            seed: 0x2345_6789,
        }
    );
    assert!(metadata.has_dimension_reduction());
    assert!(!metadata.is_lossless());
}

#[test]
fn full_vector_errors() {
    let payload = VectorPayload::Half16(vec![]);
    assert!(matches!(
        encode_full_vector(10, VectorPrecision::Bits { bits: 0 }, DimensionMode::Preserve, 0, &payload),
        Err(ElidError::InvalidPrecision(_))
    ));
    assert!(matches!(
        encode_full_vector(10, VectorPrecision::Half16, DimensionMode::Reduce { target_dims: 10 }, 0, &payload),
        Err(ElidError::ProjectionError(_))
    ));
    assert!(matches!(decode_full_vector(&[0x04; 11]), Err(ElidError::InvalidHeader)));
    let mut mini = vec![0x01, 0x00];
    mini.extend_from_slice(&[0u8; 16]);
    match decode_full_vector(&mini) {
        Err(ElidError::ProfileMismatch { expected, got }) => {
            assert_eq!(expected, "FullVector");
            assert_eq!(got, "Type 0x1");
        }
        _ => panic!("expected ProfileMismatch"),
    }
    let mut header =
        ProfileInfo::from_full_vector(4, VectorPrecision::Full32, DimensionMode::Preserve, 0)
            .to_header();
    header.extend_from_slice(&[1, 2, 3]);
    assert!(matches!(decode_full_vector(&header), Err(ElidError::InvalidEncoding)));
}

// ---------------------------------------------------------------------------
// Identifiers
// ---------------------------------------------------------------------------

#[test]
fn mini128_identifiers() {
    let a = elid_from_simhash(0xDEAD_BEEF);
    let b = elid_from_simhash(0xDEAD_BEEE);
    assert_eq!(a.as_str().len(), 29);
    let bytes = decode(&a).unwrap();
    assert_eq!(bytes.len(), 18);
    assert_eq!(bytes[0..2], [0x01, 0x00]);
    assert_eq!(hamming_distance(&a, &a).unwrap(), 0);
    assert_eq!(hamming_distance(&a, &b).unwrap(), 1);
    assert_eq!(
        hamming_distance(&elid_from_simhash(0), &elid_from_simhash(!0)).unwrap(),
        128
    );
    assert!(!is_reversible(&a));
    assert!(matches!(decode_to_payload(&a), Err(ElidError::DecodingNotSupported)));
    assert_eq!(elid_metadata(a.as_str().to_string()).unwrap(), None);
}

#[test]
fn curve_identifiers() {
    let e = elid_from_curve_code(0x02, 0x3_FFFF_FFFF, 100);
    let bytes = decode(&e).unwrap();
    assert_eq!(bytes.len(), 2 + 13);
    assert_eq!(bytes[0], 0x02);
    assert_eq!(bytes[14], 0xFF);
    assert_eq!(bytes[10], 0x03);
    assert!(!is_reversible(&e));
    match hamming_distance(&e, &elid_from_simhash(0)) {
        Err(ElidError::ProfileMismatch { expected, got }) => {
            assert_eq!(expected, "Mini128");
            assert_eq!(got, "Type 0x2");
        }
        _ => panic!("expected ProfileMismatch"),
    }
    assert_eq!(code_to_bytes(0x0102_0304, 20), vec![0x02, 0x03, 0x04]);
    assert_eq!(code_to_bytes(0xFF, 0), Vec::<u8>::new());
}

#[test]
fn full_vector_identifier_roundtrip() {
    let (values, payload) = full32_payload(64);
    let e = elid_from_full_vector(64, VectorPrecision::Full32, DimensionMode::Preserve, 7, &payload)
        .unwrap();
    assert!(is_reversible(&e));
    let (decoded, metadata) = decode_to_payload(&e).unwrap();
    match decoded {
        VectorPayload::Full32(bits) => {
            let back: Vec<f32> = bits.iter().map(|b| f32::from_bits(*b)).collect();
            assert_eq!(values, back);
        }
        _ => panic!("expected Full32 payload"),
    }
    assert!(metadata.is_lossless());
    assert_eq!(elid_metadata(e.as_str().to_string()).unwrap(), Some(metadata));
    assert!(matches!(
        hamming_distance(&e, &elid_from_simhash(0)),
        Err(ElidError::InvalidHeader)
    ));
    assert!(matches!(
        elid_metadata("w".to_string()),
        Err(ElidError::InvalidEncoding)
    ));
}

#[test]
fn half16_identifier_roundtrip() {
    let halves: Vec<u16> = (0..32u16).map(|i| i * 1000).collect();
    let payload = VectorPayload::Half16(halves.clone());
    let e = elid_from_full_vector(
        100,
        VectorPrecision::Half16,
        DimensionMode::Common { dims: 32 },
        0xFFFF_FFFF_FFFF,
        &payload,
    )
    .unwrap();
    let (decoded, metadata) = decode_to_payload(&e).unwrap();
    match decoded {
        VectorPayload::Half16(v) => assert_eq!(v, halves),
        _ => panic!("expected Half16 payload"),
    }
    assert_eq!(metadata.original_dims, 100);
    assert_eq!(metadata.encoded_dims, 32);
    assert_eq!(metadata.seed, 0xFFFF_FFFF);
}

#[test]
fn hamming_distance_rejects_short_identifiers() {
    let empty = Elid::from_string(String::new()).unwrap();
    let one_byte = Elid::from_string("0g".to_string()).unwrap();
    let mini = elid_from_simhash(0);
    assert!(matches!(hamming_distance(&empty, &mini), Err(ElidError::InvalidHeader)));
    assert!(matches!(hamming_distance(&mini, &one_byte), Err(ElidError::InvalidHeader)));
    assert!(matches!(hamming_distance(&one_byte, &empty), Err(ElidError::InvalidHeader)));
}
