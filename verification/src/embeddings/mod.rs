//! Sortable identifiers for embedding vectors.
//!
//! An identifier is the base32hex encoding of a header followed by a payload:
//! a 128-bit SimHash (Mini128), a space-filling curve code (Morton10x10,
//! Hilbert10x10), or the vector itself at some precision (FullVector).

pub mod encoding;
pub mod error;
pub mod full_vector;
pub mod types;
pub mod vector_simhash;

pub use encoding::{decode_sortable, encode_sortable};
pub use error::ElidError;
pub use full_vector::{
    decode_full_vector, encode_full_vector, FullVectorMetadata, QuantizedValues, VectorPayload,
};
pub use types::{DimensionMode, Elid, Profile, ProfileInfo, QuantizedCoords, VectorPrecision};
pub use vector_simhash::{elid_hamming_distance, simhash_from_bytes, simhash_to_bytes};

use vstd::prelude::*;

use crate::bits::{be_value, popcount, u128_to_be_bytes};
use encoding::base32hex;
use error::{hex_char, profile_type_label};
use full_vector::{
    encodes_payload, full_vector_decoding, full_vector_info, lemma_full_vector_roundtrip,
    levels_fit, payload_matches, same_payload,
};
use types::{
    all_elid_chars, elid_bytes, full_vector_payload_bits, max_length_found, lemma_elid_bytes_of_encoding, lemma_elid_chars_ascii,
    lemma_encoding_elid_chars, mode_error, mode_valid, precision_error, precision_valid,
    spec_max_length, spec_output_dims, spec_string_length_for_dims, spec_to_header,
};
use vector_simhash::spec_hash_distance;

verus! {

/// Decodes an identifier to its raw bytes (header and payload).
///
/// Fails with `InvalidEncoding` when the string encodes no byte string.
pub fn decode(elid: &Elid) -> (r: Result<Vec<u8>, ElidError>)
    requires
        elid@.len() <= usize::MAX / 8,
    ensures
        r is Ok <==> elid_bytes(elid@) is Some,
        r matches Ok(v) ==> elid_bytes(elid@) == Some(v@),
        r matches Err(e) ==> e == ElidError::InvalidEncoding,
{
    elid.to_bytes()
}

/// Whether an identifier string decodes to a full vector encoding.
pub open spec fn spec_is_reversible(s: Seq<char>) -> bool {
    elid_bytes(s) matches Some(b) && b.len() >= 2 && b[0] & 0x0Fu8 == 4
}

/// Whether the identifier can be decoded back to an embedding, that is,
/// whether it was made with a full vector profile.
pub fn is_reversible(elid: &Elid) -> (r: bool)
    requires
        elid@.len() <= usize::MAX / 8,
    ensures
        r == spec_is_reversible(elid@),
{
    match elid.to_bytes() {
        Ok(bytes) => {
            if bytes.len() >= 2 {
                let profile_type = bytes[0] & 0x0F;
                profile_type == 0x04
            } else {
                false
            }
        },
        Err(_) => false,
    }
}

/// Whether `r` is the outcome of comparing two identifiers' SimHash payloads.
pub open spec fn hamming_result(a: Seq<char>, b: Seq<char>, r: Result<u32, ElidError>) -> bool {
    if elid_bytes(a) is None || elid_bytes(b) is None {
        r == Err::<u32, ElidError>(ElidError::InvalidEncoding)
    } else {
        let x = elid_bytes(a)->0;
        let y = elid_bytes(b)->0;
        if x.len() < 2 || y.len() < 2 || x[0] & 0x0Fu8 == 4 || y[0] & 0x0Fu8 == 4 {
            r == Err::<u32, ElidError>(ElidError::InvalidHeader)
        } else if x[0] & 0x0Fu8 != 1 {
            r matches Err(ElidError::ProfileMismatch { expected, got }) && expected@ == "Mini128"@
                && got@ == "Type 0x"@.push(hex_char((x[0] & 0x0Fu8) as nat))
        } else if y[0] & 0x0Fu8 != 1 {
            r matches Err(ElidError::ProfileMismatch { expected, got }) && expected@ == "Mini128"@
                && got@ == "Type 0x"@.push(hex_char((y[0] & 0x0Fu8) as nat))
        } else if x.len() != 18 || y.len() != 18 {
            r == Err::<u32, ElidError>(ElidError::InvalidEncoding)
        } else {
            r == Ok::<u32, ElidError>(
                popcount((be_value(x.skip(2)) as u128 ^ be_value(y.skip(2)) as u128) as nat) as u32,
            )
        }
    }
}

/// Hamming distance between the SimHash payloads of two Mini128 identifiers.
///
/// Fails with `InvalidEncoding` when either does not decode or its payload
/// is not 16 bytes, `InvalidHeader` when either has no 2-byte header or is a
/// (too short) full vector header, and `ProfileMismatch` when either is not
/// Mini128.
pub fn hamming_distance(a: &Elid, b: &Elid) -> (r: Result<u32, ElidError>)
    requires
        a@.len() <= usize::MAX / 8,
        b@.len() <= usize::MAX / 8,
    ensures
        hamming_result(a@, b@, r),
{
    let bytes_a = decode(a)?;
    let bytes_b = decode(b)?;
    if bytes_a.len() < 2 || bytes_b.len() < 2 {
        return Err(ElidError::InvalidHeader);
    }

    let profile_a = ProfileInfo::from_header(&bytes_a[0..2])?;
    assert(bytes_a@.subrange(0, 2)[0] == bytes_a@[0]);
    let profile_b = ProfileInfo::from_header(&bytes_b[0..2])?;
    assert(bytes_b@.subrange(0, 2)[0] == bytes_b@[0]);

    if profile_a.profile_type != 0x01 {
        let b0 = bytes_a[0];
        assert(b0 & 0x0Fu8 < 16) by (bit_vector);
        let got = profile_type_label(profile_a.profile_type);
        return Err(ElidError::ProfileMismatch { expected: String::from_str("Mini128"), got });
    }
    if profile_b.profile_type != 0x01 {
        let b0 = bytes_b[0];
        assert(b0 & 0x0Fu8 < 16) by (bit_vector);
        let got = profile_type_label(profile_b.profile_type);
        return Err(ElidError::ProfileMismatch { expected: String::from_str("Mini128"), got });
    }

    let payload_a = &bytes_a[2..bytes_a.len()];
    let payload_b = &bytes_b[2..bytes_b.len()];
    assert(payload_a@ =~= bytes_a@.skip(2));
    assert(payload_b@ =~= bytes_b@.skip(2));

    let hash_a = simhash_from_bytes(payload_a)?;
    let hash_b = simhash_from_bytes(payload_b)?;

    Ok(elid_hamming_distance(hash_a, hash_b))
}

/// The last `ceil(total_bits / 8)` of the 16 big-endian bytes of `code`.
pub fn code_to_bytes(code: u128, total_bits: usize) -> (r: Vec<u8>)
    requires
        total_bits <= 128,
    ensures
        r@.len() == (total_bits + 7) / 8,
        be_value(r@) == code as nat % vstd::arithmetic::power2::pow2(8 * r@.len()),
{
    let needed_bytes = (total_bits + 7) / 8;
    let all_bytes = u128_to_be_bytes(code);
    let start_idx = 16 - needed_bytes;
    let mut out: Vec<u8> = Vec::new();
    let mut i: usize = start_idx;
    while i < 16
        invariant
            start_idx <= i <= 16,
            all_bytes@.len() == 16,
            out@ == all_bytes@.subrange(start_idx as int, i as int),
        decreases 16 - i,
    {
        out.push(all_bytes[i]);
        assert(out@ =~= all_bytes@.subrange(start_idx as int, i + 1));
        i = i + 1;
    }
    proof {
        crate::bits::lemma_be_value_suffix(all_bytes@, start_idx as int);
    }
    out
}

/// The identifier encoding `bytes`.
fn elid_from_bytes(bytes: &[u8]) -> (e: Elid)
    requires
        bytes@.len() <= usize::MAX / 512,
    ensures
        e@ == base32hex(bytes@),
        elid_bytes(e@) == Some(bytes@),
{
    let encoded = encode_sortable(bytes);
    proof {
        lemma_encoding_elid_chars(bytes@);
        lemma_elid_bytes_of_encoding(bytes@);
    }
    match Elid::from_string(encoded) {
        Ok(e) => e,
        Err(_) => {
            proof {
                assert(false);
            }
            Elid::from_string(String::new()).unwrap()
        },
    }
}

/// Whether `b` is the byte form of a Mini128 identifier for `hash`: header
/// `0x01 0x00`, then the 16 big-endian bytes of the hash.
pub open spec fn is_mini128_bytes(b: Seq<u8>, hash: u128) -> bool {
    &&& b.len() == 18
    &&& b[0] == 0x01u8
    &&& b[1] == 0x00u8
    &&& be_value(b.skip(2)) == hash
}

/// The Mini128 identifier of a 128-bit SimHash.
pub fn elid_from_simhash(hash: u128) -> (e: Elid)
    ensures
        elid_bytes(e@) matches Some(b) && is_mini128_bytes(b, hash),
        !spec_is_reversible(e@),
        e@.len() == 29,
{
    let profile = Profile::Mini128 { seed: types::MINI128_SEED };
    let header = ProfileInfo {
        version: 0,
        profile_type: profile.type_id(),
        transform_id: None,
        model_id: None,
        original_dims: None,
        precision: None,
        dimension_mode: None,
        seed: None,
    };
    let mut combined = header.to_header();
    proof {
        lemma_basic_first_byte(1);
    }
    assert(combined@ =~= seq![0x01u8, 0x00u8]);
    let payload = simhash_to_bytes(hash);
    let ghost head = combined@;
    let mut i: usize = 0;
    while i < 16
        invariant
            i <= 16,
            payload@.len() == 16,
            head == seq![0x01u8, 0x00u8],
            combined@ == head + payload@.take(i as int),
        decreases 16 - i,
    {
        combined.push(payload[i]);
        assert(combined@ =~= head + payload@.take(i + 1));
        i = i + 1;
    }
    assert(combined@.skip(2) =~= payload@);
    assert(1u8 & 0x0Fu8 == 1u8) by (bit_vector);
    elid_from_bytes(combined.as_slice())
}

/// The identifier of a space-filling curve code of `total_bits` bits, for the
/// profile type given (0x02 Morton10x10, 0x03 Hilbert10x10): the 2-byte
/// header, then the code's last `ceil(total_bits / 8)` big-endian bytes.
pub fn elid_from_curve_code(profile_type: u8, code: u128, total_bits: usize) -> (e: Elid)
    requires
        profile_type < 16,
        profile_type != 4,
        total_bits <= 128,
    ensures
        elid_bytes(e@) matches Some(b) && b.len() == 2 + (total_bits + 7) / 8 && b[0]
            == profile_type && b[1] == 0 && be_value(b.skip(2)) == code as nat
            % vstd::arithmetic::power2::pow2(8 * (b.len() - 2) as nat),
        !spec_is_reversible(e@),
{
    let header = ProfileInfo {
        version: 0,
        profile_type,
        transform_id: None,
        model_id: None,
        original_dims: None,
        precision: None,
        dimension_mode: None,
        seed: None,
    };
    let mut combined = header.to_header();
    proof {
        lemma_basic_first_byte(profile_type);
    }
    assert(combined@ =~= seq![profile_type, 0x00u8]);
    let payload = code_to_bytes(code, total_bits);
    let ghost head = combined@;
    let mut i: usize = 0;
    while i < payload.len()
        invariant
            i <= payload@.len(),
            head.len() == 2,
            combined@ == head + payload@.take(i as int),
        decreases payload@.len() - i,
    {
        combined.push(payload[i]);
        assert(combined@ =~= head + payload@.take(i + 1));
        i = i + 1;
    }
    assert(combined@.skip(2) =~= payload@);
    assert(combined@[0] == profile_type && combined@[1] == 0);
    assert(profile_type & 0x0Fu8 == profile_type) by (bit_vector)
        requires
            profile_type < 16,
    ;
    let e = elid_from_bytes(combined.as_slice());
    assert(elid_bytes(e@) == Some(combined@));
    e
}

/// The first header byte of a version-0 record of a 4-bit type is the type.
proof fn lemma_basic_first_byte(t: u8)
    requires
        t < 16,
    ensures
        (0u8 << 4u8) | (t & 0x0Fu8) == t,
{
    assert((0u8 << 4u8) | (t & 0x0Fu8) == t) by (bit_vector)
        requires
            t < 16,
    ;
}

/// A full vector payload of at most 65535 values takes at most 8 + 4 * 65535 bytes.
proof fn lemma_payload_len_bound(body: Seq<u8>, payload: VectorPayload, precision: VectorPrecision, n: nat)
    requires
        n <= 0xFFFF,
        precision_valid(precision),
        payload_matches(payload, precision, n),
        encodes_payload(body, payload, precision),
    ensures
        body.len() <= 8 + 4 * 0xFFFF,
{
    match (precision, payload) {
        (VectorPrecision::Bits { bits }, VectorPayload::Quantized(q)) => {
            let b = bits as nat;
            assert(n * b <= n * 32) by (nonlinear_arith)
                requires
                    b <= 32,
            ;
            assert(body.skip(8).len() == (n * b + 7) / 8);
        },
        _ => {},
    }
}

/// The identifier of a full vector encoding (see `encode_full_vector`).
pub fn elid_from_full_vector(
    original_dims: u16,
    precision: VectorPrecision,
    dimensions: DimensionMode,
    seed: u64,
    payload: &VectorPayload,
) -> (r: Result<Elid, ElidError>)
    requires
        precision_valid(precision) && mode_valid(dimensions, original_dims) ==> payload_matches(
            *payload,
            precision,
            spec_output_dims(dimensions, original_dims) as nat,
        ),
    ensures
        r is Ok <==> precision_valid(precision) && mode_valid(dimensions, original_dims),
        r matches Err(e) ==> if !precision_valid(precision) {
            precision_error(precision, e)
        } else {
            mode_error(dimensions, original_dims, e)
        },
        r matches Ok(e) ==> elid_bytes(e@) matches Some(b) && b.len() >= 12 && b.take(12)
            == spec_to_header(full_vector_info(original_dims, precision, dimensions, seed))
            && encodes_payload(b.skip(12), *payload, precision),
        r matches Ok(e) ==> spec_is_reversible(e@),
{
    let bytes = encode_full_vector(original_dims, precision, dimensions, seed, payload)?;
    proof {
        lemma_payload_len_bound(
            bytes@.skip(12),
            *payload,
            precision,
            spec_output_dims(dimensions, original_dims) as nat,
        );
        assert(bytes@.len() == 12 + bytes@.skip(12).len());
        assert(bytes@[0] == bytes@.take(12)[0]);
        assert((0u8 << 4u8) | (4u8 & 0x0Fu8) == 4u8) by (bit_vector);
        assert(4u8 & 0x0Fu8 == 4u8) by (bit_vector);
    }
    Ok(elid_from_bytes(bytes.as_slice()))
}

/// Whether `r` is what decoding an identifier to its full vector payload gives.
pub open spec fn payload_decoding(
    s: Seq<char>,
    r: Result<(VectorPayload, FullVectorMetadata), ElidError>,
) -> bool {
    match elid_bytes(s) {
        None => r == Err::<(VectorPayload, FullVectorMetadata), ElidError>(
            ElidError::InvalidEncoding,
        ),
        Some(b) => if b.len() < 2 {
            r == Err::<(VectorPayload, FullVectorMetadata), ElidError>(ElidError::InvalidHeader)
        } else if b[0] & 0x0Fu8 != 4 {
            r == Err::<(VectorPayload, FullVectorMetadata), ElidError>(
                ElidError::DecodingNotSupported,
            )
        } else {
            full_vector_decoding(b, r)
        },
    }
}

/// Decodes a full vector identifier to its payload and metadata.
///
/// Fails with `DecodingNotSupported` for identifiers of other profiles,
/// whose hashes cannot be reversed.
pub fn decode_to_payload(elid: &Elid) -> (r: Result<(VectorPayload, FullVectorMetadata), ElidError>)
    requires
        elid@.len() <= usize::MAX / 8,
    ensures
        payload_decoding(elid@, r),
{
    let bytes = decode(elid)?;
    if bytes.len() < 2 {
        return Err(ElidError::InvalidHeader);
    }
    let profile_type = bytes[0] & 0x0F;
    if profile_type != 0x04 {
        return Err(ElidError::DecodingNotSupported);
    }
    decode_full_vector(bytes.as_slice())
}

/// Two Mini128 identifiers can always be compared, and their distance is the
/// number of bits in which their hashes differ.
pub proof fn lemma_mini128_hamming_distance(
    h1: u128,
    h2: u128,
    a: Seq<char>,
    b: Seq<char>,
    r: Result<u32, ElidError>,
)
    requires
        elid_bytes(a) matches Some(x) && is_mini128_bytes(x, h1),
        elid_bytes(b) matches Some(y) && is_mini128_bytes(y, h2),
    ensures
        hamming_result(a, b, r) ==> r == Ok::<u32, ElidError>(spec_hash_distance(h1, h2) as u32),
{
    assert(1u8 & 0x0Fu8 == 1u8) by (bit_vector);
}

/// Decoding the identifier of a full vector encoding gives back its payload
/// and metadata (whenever the quantization levels fit the precision's depth).
pub proof fn lemma_full_vector_elid_roundtrip(
    original_dims: u16,
    precision: VectorPrecision,
    dimensions: DimensionMode,
    seed: u64,
    payload: VectorPayload,
    s: Seq<char>,
    r: Result<(VectorPayload, FullVectorMetadata), ElidError>,
)
    requires
        precision_valid(precision),
        mode_valid(dimensions, original_dims),
        payload_matches(payload, precision, spec_output_dims(dimensions, original_dims) as nat),
        levels_fit(payload, precision),
        elid_bytes(s) matches Some(b) && b.len() >= 12 && b.take(12) == spec_to_header(
            full_vector_info(original_dims, precision, dimensions, seed),
        ) && encodes_payload(b.skip(12), payload, precision),
        payload_decoding(s, r),
    ensures
        r matches Ok((p, m)) && same_payload(p, payload) && m == (FullVectorMetadata {
            original_dims,
            encoded_dims: spec_output_dims(dimensions, original_dims),
            precision,
            dimension_mode: dimensions,
            seed: seed % 0x1_0000_0000,
        }),
{
    let b = elid_bytes(s)->0;
    assert(b[0] == b.take(12)[0]);
    assert((0u8 << 4u8) | (4u8 & 0x0Fu8) == 4u8) by (bit_vector);
    assert(4u8 & 0x0Fu8 == 4u8) by (bit_vector);
    lemma_full_vector_roundtrip(original_dims, precision, dimensions, seed, payload, b, r);
}

/// Whether `r` is the metadata outcome for an identifier string `s`.
pub open spec fn metadata_result(s: Seq<char>, r: Result<Option<FullVectorMetadata>, ElidError>) -> bool {
    if !all_elid_chars(s) {
        r == Err::<Option<FullVectorMetadata>, ElidError>(ElidError::InvalidEncoding)
    } else if !spec_is_reversible(s) {
        r == Ok::<Option<FullVectorMetadata>, ElidError>(None)
    } else {
        match r {
            Ok(Some(m)) => exists|p: VectorPayload| #[trigger] payload_decoding(s, Ok((p, m))),
            Ok(None) => false,
            Err(e) => payload_decoding(s, Err(e)),
        }
    }
}

/// Metadata of an identifier given as a string: `None` unless it is a full
/// vector identifier, whose payload must then decode.
///
/// Fails with `InvalidEncoding` for characters outside the alphabet, and as
/// `decode_to_payload` does for full vector identifiers that do not decode.
pub fn elid_metadata(s: String) -> (r: Result<Option<FullVectorMetadata>, ElidError>)
    requires
        s@.len() <= usize::MAX / 8,
    ensures
        metadata_result(s@, r),
{
    let ghost chars = s@;
    let elid = Elid::from_string(s)?;
    if !is_reversible(&elid) {
        return Ok(None);
    }
    match decode_to_payload(&elid) {
        Ok((payload, metadata)) => {
            assert(payload_decoding(chars, Ok((payload, metadata))));
            Ok(Some(metadata))
        },
        Err(e) => Err(e),
    }
}

/// A full vector identifier is exactly as long as the profile predicts
/// (`Profile::string_length_for_dims`).
pub proof fn lemma_identifier_length(
    original_dims: u16,
    precision: VectorPrecision,
    dimensions: DimensionMode,
    seed: u64,
    payload: VectorPayload,
    b: Seq<u8>,
)
    requires
        payload_matches(payload, precision, spec_output_dims(dimensions, original_dims) as nat),
        b.len() >= 12,
        encodes_payload(b.skip(12), payload, precision),
    ensures
        base32hex(b).len() == spec_string_length_for_dims(
            Profile::FullVector { precision, dimensions, seed },
            original_dims,
        ),
{
    let n = spec_output_dims(dimensions, original_dims) as nat;
    let body = b.skip(12);
    assert(b.len() == 12 + body.len());
    match precision {
        VectorPrecision::Full32 => {
            assert(body.len() == 4 * n);
            assert(full_vector_payload_bits(precision, n) == n * 32);
        },
        VectorPrecision::Half16 => {
            assert(body.len() == 2 * n);
            assert(full_vector_payload_bits(precision, n) == n * 16);
        },
        VectorPrecision::Quant8 => {
            assert(body.len() == 8 + n);
            assert((n * 8 + 7) / 8 == n);
            assert(full_vector_payload_bits(precision, n) == 64 + 8 * n);
        },
        VectorPrecision::Bits { bits } => {
            assert(body.skip(8).len() == (n * (bits as nat) + 7) / 8);
            assert(body.len() == 8 + body.skip(8).len());
            assert(full_vector_payload_bits(precision, n) == 64 + 8 * ((n * (bits as nat) + 7) / 8));
        },
    }
    assert(8 * b.len() == 96 + full_vector_payload_bits(precision, n));
}

/// A full vector identifier made with the profile `max_length` chooses keeps
/// within `max_chars` characters, whenever some precision fits the limit
/// (else `max_length` falls back to a 1-bit profile longer than the limit).
pub proof fn lemma_max_length_identifier_fits(
    max_chars: nat,
    original_dims: u16,
    payload: VectorPayload,
    b: Seq<u8>,
)
    requires
        original_dims > 0,
        max_length_found(max_chars, original_dims),
        spec_max_length(max_chars, original_dims) matches Profile::FullVector {
            precision,
            dimensions,
            ..
        } && payload_matches(payload, precision, spec_output_dims(dimensions, original_dims) as nat)
            && b.len() >= 12 && encodes_payload(b.skip(12), payload, precision),
    ensures
        base32hex(b).len() <= max_chars,
{
    let p = spec_max_length(max_chars, original_dims);
    let precision = p->FullVector_precision;
    let dimensions = p->FullVector_dimensions;
    let seed = p->FullVector_seed;
    lemma_identifier_length(original_dims, precision, dimensions, seed, payload, b);
    types::lemma_max_length_fits(max_chars, original_dims);
}

} // verus!
