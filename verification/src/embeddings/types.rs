//! Core data types: precision and dimension settings, identifier strings,
//! encoding profiles, header metadata and quantized coordinates.

use vstd::prelude::*;
use vstd::utf8::{encode_utf8, is_ascii_chars, is_ascii_chars_encode_utf8};

use super::encoding::{base32hex, decode_sortable};
use super::error::{decimal, push_decimal, ElidError};
use crate::strings::common::str_chars;

verus! {

// ============================================================================
// VectorPrecision
// ============================================================================

/// Precision options for full vector encoding: how many bits represent each
/// dimension value.
#[derive(Clone, Copy, Debug, PartialEq, Eq, Structural)]
pub enum VectorPrecision {
    /// Full 32-bit float (lossless, 4 bytes per dimension)
    Full32,
    /// 16-bit half-precision float (2 bytes per dimension)
    Half16,
    /// 8-bit quantized (1 byte per dimension)
    Quant8,
    /// Custom bit depth (1-32 bits per dimension)
    Bits {
        /// Number of bits per dimension (1-32)
        bits: u8,
    },
}

impl Default for VectorPrecision {
    fn default() -> (r: Self)
        ensures
            r == VectorPrecision::Full32,
    {
        VectorPrecision::Full32
    }
}

/// Bits used per dimension by a precision setting.
pub open spec fn spec_bits_per_dim(p: VectorPrecision) -> u8 {
    match p {
        VectorPrecision::Full32 => 32,
        VectorPrecision::Half16 => 16,
        VectorPrecision::Quant8 => 8,
        VectorPrecision::Bits { bits } => bits,
    }
}

/// Whether a precision setting is usable: custom depths must be 1-32 bits.
pub open spec fn precision_valid(p: VectorPrecision) -> bool {
    match p {
        VectorPrecision::Bits { bits } => 1 <= bits <= 32,
        _ => true,
    }
}

/// The error an invalid precision is reported with.
pub open spec fn precision_error(p: VectorPrecision, e: ElidError) -> bool {
    e matches ElidError::InvalidPrecision(m) && m@ == "Bits must be 1-32, got "@ + decimal(
        spec_bits_per_dim(p) as nat,
    )
}

impl VectorPrecision {
    /// Number of bits used per dimension.
    #[must_use]
    pub fn bits_per_dim(&self) -> (r: u8)
        ensures
            r == spec_bits_per_dim(*self),
    {
        match self {
            VectorPrecision::Full32 => 32,
            VectorPrecision::Half16 => 16,
            VectorPrecision::Quant8 => 8,
            VectorPrecision::Bits { bits } => *bits,
        }
    }

    /// Name of the precision kind: `Full32`, `Half16`, `Quant8` or `Bits`.
    pub fn name(&self) -> (r: &'static str)
        ensures
            r@ == match *self {
                VectorPrecision::Full32 => "Full32"@,
                VectorPrecision::Half16 => "Half16"@,
                VectorPrecision::Quant8 => "Quant8"@,
                VectorPrecision::Bits { .. } => "Bits"@,
            },
    {
        match self {
            VectorPrecision::Full32 => "Full32",
            VectorPrecision::Half16 => "Half16",
            VectorPrecision::Quant8 => "Quant8",
            VectorPrecision::Bits { .. } => "Bits",
        }
    }

    /// Validates the precision: custom bit depths must be 1-32.
    pub fn validate(&self) -> (r: Result<(), ElidError>)
        ensures
            r is Ok <==> precision_valid(*self),
            r matches Err(e) ==> precision_error(*self, e),
    {
        match self {
            VectorPrecision::Bits { bits } => {
                if *bits == 0 || *bits > 32 {
                    let mut m = String::from_str("Bits must be 1-32, got ");
                    push_decimal(&mut m, *bits as u64);
                    return Err(ElidError::InvalidPrecision(m));
                }
                Ok(())
            },
            _ => Ok(()),
        }
    }
}

// ============================================================================
// DimensionMode
// ============================================================================

/// Dimension handling for full vector encoding: keep all dimensions, reduce
/// them, or project to a common space for cross-dimensional comparison.
#[derive(Clone, Copy, Debug, PartialEq, Eq, Structural)]
pub enum DimensionMode {
    /// Preserve all original dimensions (no projection)
    Preserve,
    /// Reduce to target dimensions using random projection
    Reduce {
        /// Target number of dimensions (must be < original)
        target_dims: u16,
    },
    /// Project to a common space shared by vectors of any original dimension
    Common {
        /// Common dimension space (all vectors projected to this)
        dims: u16,
    },
}

impl Default for DimensionMode {
    fn default() -> (r: Self)
        ensures
            r == DimensionMode::Preserve,
    {
        DimensionMode::Preserve
    }
}

/// Output dimension count of a mode for a given input dimension count.
pub open spec fn spec_output_dims(m: DimensionMode, input_dims: u16) -> u16 {
    match m {
        DimensionMode::Preserve => input_dims,
        DimensionMode::Reduce { target_dims } => target_dims,
        DimensionMode::Common { dims } => dims,
    }
}

/// Whether a mode is usable for the given input dimension count.
pub open spec fn mode_valid(m: DimensionMode, input_dims: u16) -> bool {
    match m {
        DimensionMode::Preserve => true,
        DimensionMode::Reduce { target_dims } => 0 < target_dims < input_dims,
        DimensionMode::Common { dims } => dims > 0,
    }
}

/// The error an invalid dimension mode is reported with.
pub open spec fn mode_error(m: DimensionMode, input_dims: u16, e: ElidError) -> bool {
    match m {
        DimensionMode::Reduce { target_dims } => if target_dims == 0 {
            e == ElidError::InvalidDimension {
                got: 0,
                expected_range: (1, input_dims as usize),
            }
        } else {
            e matches ElidError::ProjectionError(msg) && msg@ == "Target dims "@ + decimal(
                target_dims as nat,
            ) + " must be less than input dims "@ + decimal(input_dims as nat)
        },
        DimensionMode::Common { .. } => e == ElidError::InvalidDimension {
            got: 0,
            expected_range: (1, 2048),
        },
        DimensionMode::Preserve => false,
    }
}

impl DimensionMode {
    /// Output dimension count for a given input dimension count.
    #[must_use]
    pub fn output_dims(&self, input_dims: u16) -> (r: u16)
        ensures
            r == spec_output_dims(*self, input_dims),
    {
        match self {
            DimensionMode::Preserve => input_dims,
            DimensionMode::Reduce { target_dims } => *target_dims,
            DimensionMode::Common { dims } => *dims,
        }
    }

    /// Name of the mode: `Preserve`, `Reduce` or `Common`.
    pub fn name(&self) -> (r: &'static str)
        ensures
            r@ == match *self {
                DimensionMode::Preserve => "Preserve"@,
                DimensionMode::Reduce { .. } => "Reduce"@,
                DimensionMode::Common { .. } => "Common"@,
            },
    {
        match self {
            DimensionMode::Preserve => "Preserve",
            DimensionMode::Reduce { .. } => "Reduce",
            DimensionMode::Common { .. } => "Common",
        }
    }

    /// Validates the mode against the input dimension count.
    pub fn validate(&self, input_dims: u16) -> (r: Result<(), ElidError>)
        ensures
            r is Ok <==> mode_valid(*self, input_dims),
            r matches Err(e) ==> mode_error(*self, input_dims, e),
    {
        match self {
            DimensionMode::Preserve => Ok(()),
            DimensionMode::Reduce { target_dims } => {
                if *target_dims == 0 {
                    Err(ElidError::InvalidDimension { got: 0, expected_range: (1, input_dims as usize) })
                } else if *target_dims >= input_dims {
                    let mut m = String::from_str("Target dims ");
                    push_decimal(&mut m, *target_dims as u64);
                    m.append(" must be less than input dims ");
                    push_decimal(&mut m, input_dims as u64);
                    Err(ElidError::ProjectionError(m))
                } else {
                    Ok(())
                }
            },
            DimensionMode::Common { dims } => {
                if *dims == 0 {
                    Err(ElidError::InvalidDimension { got: 0, expected_range: (1, 2048) })
                } else {
                    Ok(())
                }
            },
        }
    }
}

// ============================================================================
// Elid
// ============================================================================

/// Whether a character belongs to the lowercase base32hex alphabet.
pub open spec fn is_elid_char(c: char) -> bool {
    ('0' <= c && c <= '9') || ('a' <= c && c <= 'v')
}

/// Whether every character of `s` belongs to the base32hex alphabet.
pub open spec fn all_elid_chars(s: Seq<char>) -> bool {
    forall|i: int| 0 <= i < s.len() ==> is_elid_char(#[trigger] s[i])
}

/// The bytes that an identifier string encodes, if it is the canonical
/// base32hex encoding of some byte string.
pub open spec fn elid_bytes(s: Seq<char>) -> Option<Seq<u8>> {
    if exists|b: Seq<u8>| #[trigger] base32hex(b) == s {
        Some(choose|b: Seq<u8>| #[trigger] base32hex(b) == s)
    } else {
        None
    }
}

/// Decoding an identifier string gives the unique bytes it encodes.
pub proof fn lemma_elid_bytes_of_encoding(b: Seq<u8>)
    ensures
        elid_bytes(base32hex(b)) == Some(b),
{
    let s = base32hex(b);
    assert(exists|x: Seq<u8>| #[trigger] base32hex(x) == s);
    let c = choose|x: Seq<u8>| #[trigger] base32hex(x) == s;
    crate::embeddings::encoding::lemma_base32hex_injective(c, b);
}

/// Every character of a base32hex encoding belongs to the identifier alphabet.
pub proof fn lemma_encoding_elid_chars(b: Seq<u8>)
    ensures
        all_elid_chars(base32hex(b)),
{
    assert forall|i: int| 0 <= i < base32hex(b).len() implies is_elid_char(
        #[trigger] base32hex(b)[i],
    ) by {
        crate::embeddings::encoding::lemma_b32_digit_range(b, i);
    }
}

/// An identifier has as many bytes in UTF-8 as it has characters.
pub proof fn lemma_elid_chars_ascii(s: Seq<char>)
    requires
        all_elid_chars(s),
    ensures
        encode_utf8(s).len() == s.len(),
{
    assert(is_ascii_chars(s)) by {
        assert forall|i: int| 0 <= i < s.len() implies '\0' <= #[trigger] s[i] <= '\u{7f}' by {
            assert(is_elid_char(s[i]));
        }
    }
    is_ascii_chars_encode_utf8(s);
}

/// An identifier string: lowercase base32hex characters, lexicographically
/// sortable in the order of the bytes it encodes.
#[derive(PartialEq, Eq, PartialOrd, Ord, Hash, Debug)]
pub struct Elid(String);

impl Clone for Elid {
    fn clone(&self) -> (r: Self)
        ensures
            r@ == self@,
    {
        proof {
            use_type_invariant(self);
        }
        Elid(self.0.clone())
    }
}

impl View for Elid {
    type V = Seq<char>;

    closed spec fn view(&self) -> Seq<char> {
        self.0@
    }
}

impl Elid {
    #[verifier::type_invariant]
    closed spec fn wf(self) -> bool {
        all_elid_chars(self.0@)
    }

    /// Creates an identifier from a string of base32hex characters.
    ///
    /// Fails with `InvalidEncoding` if any character lies outside `0-9`, `a-v`.
    pub fn from_string(s: String) -> (r: Result<Self, ElidError>)
        ensures
            match r {
                Ok(e) => e@ == s@ && all_elid_chars(s@),
                Err(e) => !all_elid_chars(s@) && e == ElidError::InvalidEncoding,
            },
    {
        let chars = str_chars(s.as_str());
        let n = chars.len();
        let mut i: usize = 0;
        while i < n
            invariant
                chars@ == s@,
                n == s@.len(),
                i <= n,
                forall|k: int| 0 <= k < i ==> is_elid_char(#[trigger] s@[k]),
            decreases n - i,
        {
            let c = chars[i];
            if !((c >= '0' && c <= '9') || (c >= 'a' && c <= 'v')) {
                assert(!is_elid_char(s@[i as int]));
                return Err(ElidError::InvalidEncoding);
            }
            i = i + 1;
        }
        Ok(Elid(s))
    }

    /// The identifier as a string slice.
    #[must_use]
    pub fn as_str(&self) -> (r: &str)
        ensures
            r@ == self@,
    {
        self.0.as_str()
    }

    /// Decodes the identifier to its raw (big-endian) bytes.
    ///
    /// Fails with `InvalidEncoding` when the string is not the canonical
    /// encoding of any byte string.
    pub fn to_bytes(&self) -> (r: Result<Vec<u8>, ElidError>)
        requires
            self@.len() <= usize::MAX / 8,
        ensures
            r is Ok <==> elid_bytes(self@) is Some,
            r matches Ok(v) ==> elid_bytes(self@) == Some(v@),
            r matches Err(e) ==> e == ElidError::InvalidEncoding,
    {
        proof {
            use_type_invariant(self);
            lemma_elid_chars_ascii(self.0@);
        }
        let r = decode_sortable(self.as_str());
        proof {
            if r is Ok {
                lemma_elid_bytes_of_encoding(r->Ok_0@);
            }
        }
        r
    }

    /// Extracts the profile information from the first two header bytes.
    pub fn profile(&self) -> (r: Result<ProfileInfo, ElidError>)
        requires
            self@.len() <= usize::MAX / 8,
        ensures
            match elid_bytes(self@) {
                None => r == Err::<ProfileInfo, ElidError>(ElidError::InvalidEncoding),
                Some(b) => if b.len() < 2 || b[0] & 0x0F == 4 {
                    r == Err::<ProfileInfo, ElidError>(ElidError::InvalidHeader)
                } else {
                    r == Ok::<ProfileInfo, ElidError>(basic_header_info(b.take(2)))
                },
            },
    {
        let bytes = self.to_bytes()?;
        if bytes.len() < 2 {
            return Err(ElidError::InvalidHeader);
        }
        let head = &bytes[0..2];
        assert(head@ =~= bytes@.take(2));
        ProfileInfo::from_header(head)
    }
}

// ============================================================================
// ProfileInfo
// ============================================================================

/// Profile information decoded from an identifier header.
///
/// Byte 0 holds `(version << 4) | profile_type`, byte 1 is reserved. Other
/// profiles may append a big-endian transform id (bytes 2-3). Full vector
/// identifiers (type 0x04) use a 12-byte header: original dimensions (bytes
/// 2-3), precision (byte 4: 0=Full32, 1=Half16, 2=Quant8, 3..=35 = Bits 0..=32, depth = byte - 3),
/// dimension mode (byte 5: 0=Preserve, 1=Reduce, 2=Common), target dimensions
/// (bytes 6-7) and the low 32 bits of the seed (bytes 8-11).
#[derive(Clone, Copy, Debug, PartialEq, Eq, Structural)]
pub struct ProfileInfo {
    /// Version of the identifier format
    pub version: u8,
    /// Profile type ID (0x01=Mini128, 0x02=Morton, 0x03=Hilbert, 0x04=FullVector)
    pub profile_type: u8,
    /// Optional transform ID (for PCA/OPQ rotation)
    pub transform_id: Option<u16>,
    /// Optional model ID (for tracking which embedding model was used)
    pub model_id: Option<u16>,
    /// Original dimension count (FullVector only)
    pub original_dims: Option<u16>,
    /// Precision type for FullVector
    pub precision: Option<VectorPrecision>,
    /// Dimension mode for FullVector
    pub dimension_mode: Option<DimensionMode>,
    /// Seed for deterministic operations
    pub seed: Option<u64>,
}

/// Big-endian 16-bit value of two bytes.
pub open spec fn be16(hi: u8, lo: u8) -> u16 {
    (hi as nat * 256 + lo as nat) as u16
}

/// Big-endian 32-bit value of four bytes.
pub open spec fn be32(b0: u8, b1: u8, b2: u8, b3: u8) -> u32 {
    (((b0 as nat * 256 + b1 as nat) * 256 + b2 as nat) * 256 + b3 as nat) as u32
}

/// Format version stored in the upper four bits of the first header byte.
pub open spec fn header_version(b0: u8) -> u8 {
    (b0 & 0xF0u8) >> 4u8
}

/// Precision named by a full vector header's precision byte.
pub open spec fn precision_from_byte(p: u8) -> Option<VectorPrecision> {
    if p == 0 {
        Some(VectorPrecision::Full32)
    } else if p == 1 {
        Some(VectorPrecision::Half16)
    } else if p == 2 {
        Some(VectorPrecision::Quant8)
    } else if 3 <= p <= 35 {
        Some(VectorPrecision::Bits { bits: (p - 3) as u8 })
    } else {
        None
    }
}

/// Dimension mode named by a full vector header's mode byte and target dimensions.
pub open spec fn mode_from_byte(m: u8, dims: u16) -> Option<DimensionMode> {
    if m == 0 {
        Some(DimensionMode::Preserve)
    } else if m == 1 {
        Some(DimensionMode::Reduce { target_dims: dims })
    } else if m == 2 {
        Some(DimensionMode::Common { dims })
    } else {
        None
    }
}

/// Information read from a header of a profile other than full vector.
pub open spec fn basic_header_info(h: Seq<u8>) -> ProfileInfo {
    ProfileInfo {
        version: header_version(h[0]),
        profile_type: h[0] & 0x0Fu8,
        transform_id: if h.len() >= 4 {
            Some(be16(h[2], h[3]))
        } else {
            None
        },
        model_id: None,
        original_dims: None,
        precision: None,
        dimension_mode: None,
        seed: None,
    }
}

/// Information read from a (valid) 12-byte full vector header.
pub open spec fn full_vector_header_info(h: Seq<u8>) -> ProfileInfo {
    ProfileInfo {
        version: header_version(h[0]),
        profile_type: 0x04,
        transform_id: None,
        model_id: None,
        original_dims: Some(be16(h[2], h[3])),
        precision: precision_from_byte(h[4]),
        dimension_mode: mode_from_byte(h[5], be16(h[6], h[7])),
        seed: Some(be32(h[8], h[9], h[10], h[11]) as u64),
    }
}

/// The profile information a header denotes, or `None` if it is invalid.
pub open spec fn parse_header(h: Seq<u8>) -> Option<ProfileInfo> {
    if h.len() < 2 {
        None
    } else if h[0] & 0x0Fu8 == 4 {
        if h.len() < 12 || precision_from_byte(h[4]) is None || mode_from_byte(
            h[5],
            be16(h[6], h[7]),
        ) is None {
            None
        } else {
            Some(full_vector_header_info(h))
        }
    } else {
        Some(basic_header_info(h))
    }
}

/// Header byte for a precision (absent precision is written as Full32).
pub open spec fn precision_to_byte(p: Option<VectorPrecision>) -> u8 {
    match p {
        Some(VectorPrecision::Full32) => 0,
        Some(VectorPrecision::Half16) => 1,
        Some(VectorPrecision::Quant8) => 2,
        Some(VectorPrecision::Bits { bits }) => (bits + 3) as u8,
        None => 0,
    }
}

/// Header mode byte for a dimension mode (absent mode is written as Preserve).
pub open spec fn mode_to_byte(m: Option<DimensionMode>) -> u8 {
    match m {
        Some(DimensionMode::Reduce { .. }) => 1,
        Some(DimensionMode::Common { .. }) => 2,
        _ => 0,
    }
}

/// Header target dimensions for a dimension mode (0 when preserving).
pub open spec fn mode_to_dims(m: Option<DimensionMode>) -> u16 {
    match m {
        Some(DimensionMode::Reduce { target_dims }) => target_dims,
        Some(DimensionMode::Common { dims }) => dims,
        _ => 0,
    }
}

/// Big-endian bytes of a 16-bit value.
pub open spec fn be16_bytes(x: u16) -> Seq<u8> {
    seq![(x / 256) as u8, (x % 256) as u8]
}

/// The header bytes written for a profile information record.
pub open spec fn spec_to_header(info: ProfileInfo) -> Seq<u8> {
    let b0 = (info.version << 4u8) | (info.profile_type & 0x0Fu8);
    if info.profile_type == 4 {
        let od = match info.original_dims {
            Some(d) => d,
            None => 0u16,
        };
        let sl = (match info.seed {
            Some(x) => x,
            None => 0u64,
        } % 0x1_0000_0000) as nat;
        seq![b0, 0u8] + be16_bytes(od) + seq![
            precision_to_byte(info.precision),
            mode_to_byte(info.dimension_mode),
        ] + be16_bytes(mode_to_dims(info.dimension_mode)) + seq![
            (sl / 0x100_0000) as u8,
            ((sl / 0x1_0000) % 256) as u8,
            ((sl / 0x100) % 256) as u8,
            (sl % 256) as u8,
        ]
    } else {
        seq![b0, 0u8] + match info.transform_id {
            Some(t) => be16_bytes(t),
            None => Seq::empty(),
        }
    }
}

/// Whether a record can be written as a header without arithmetic overflow:
/// full vector custom bit depths must be at most 252.
pub open spec fn header_encodable(info: ProfileInfo) -> bool {
    info.profile_type == 4 ==> match info.precision {
        Some(VectorPrecision::Bits { bits }) => bits <= 252,
        _ => true,
    }
}

/// Whether a record is exactly what its header reads back as: version and
/// type fit in four bits each, and it carries just the fields its profile's
/// header stores (for full vector: all of them, with a seed below 2^32 and
/// custom depths of at most 32 bits).
pub open spec fn header_canonical(info: ProfileInfo) -> bool {
    &&& info.version < 16
    &&& info.profile_type < 16
    &&& info.model_id is None
    &&& if info.profile_type == 4 {
        &&& info.transform_id is None
        &&& info.original_dims is Some
        &&& info.dimension_mode is Some
        &&& info.seed matches Some(x) && x < 0x1_0000_0000
        &&& match info.precision {
            Some(VectorPrecision::Bits { bits }) => bits <= 32,
            Some(_) => true,
            None => false,
        }
    } else {
        &&& info.original_dims is None
        &&& info.precision is None
        &&& info.dimension_mode is None
        &&& info.seed is None
    }
}

proof fn lemma_first_byte(v: u8, t: u8)
    requires
        v < 16,
        t < 16,
    ensures
        ((v << 4u8) | (t & 0x0Fu8)) & 0x0Fu8 == t,
        header_version((v << 4u8) | (t & 0x0Fu8)) == v,
{
    assert(((v << 4u8) | (t & 0x0Fu8)) & 0x0Fu8 == t) by (bit_vector)
        requires
            t < 16,
    ;
    assert((((v << 4u8) | (t & 0x0Fu8)) & 0xF0u8) >> 4u8 == v) by (bit_vector)
        requires
            v < 16,
    ;
}

/// Writing a canonical record as a header and reading it back gives the
/// same record.
pub proof fn lemma_header_roundtrip(info: ProfileInfo)
    requires
        header_canonical(info),
    ensures
        parse_header(spec_to_header(info)) == Some(info),
{
    lemma_first_byte(info.version, info.profile_type);
    let h = spec_to_header(info);
    if info.profile_type == 4 {
        let sl = (info.seed->0 % 0x1_0000_0000) as nat;
        assert(be32(h[8], h[9], h[10], h[11]) == sl);
        assert(h[4] == precision_to_byte(info.precision));
        assert(precision_from_byte(h[4]) == info.precision);
        assert(mode_from_byte(h[5], be16(h[6], h[7])) == info.dimension_mode);
        assert(full_vector_header_info(h) == info);
    } else {
        assert(basic_header_info(h) == info);
    }
}

/// The precision byte (byte 4) of a full vector header follows a fixed
/// table: 0 is Full32, 1 Half16, 2 Quant8, and n from 3 to 35 a custom depth
/// of n - 3 bits; a larger byte makes the header invalid. Writing a header
/// puts the byte of the same table.
pub proof fn lemma_precision_byte_table(h: Seq<u8>, info: ProfileInfo)
    ensures
        h.len() >= 12 && h[0] & 0x0Fu8 == 4 && h[4] > 35 ==> parse_header(h) is None,
        h.len() >= 12 && h[0] & 0x0Fu8 == 4 && parse_header(h) is Some ==> {
            let pr = parse_header(h)->0.precision;
            &&& h[4] == 0 ==> pr == Some(VectorPrecision::Full32)
            &&& h[4] == 1 ==> pr == Some(VectorPrecision::Half16)
            &&& h[4] == 2 ==> pr == Some(VectorPrecision::Quant8)
            &&& 3 <= h[4] <= 35 ==> pr == Some(VectorPrecision::Bits { bits: (h[4] - 3) as u8 })
        },
        info.profile_type == 4 ==> spec_to_header(info)[4] == match info.precision {
            Some(VectorPrecision::Full32) => 0u8,
            Some(VectorPrecision::Half16) => 1u8,
            Some(VectorPrecision::Quant8) => 2u8,
            Some(VectorPrecision::Bits { bits }) => (bits + 3) as u8,
            None => 0u8,
        },
{
}

impl ProfileInfo {
    /// Decodes profile information from header bytes.
    ///
    /// Fails with `InvalidHeader` for headers under 2 bytes, or full vector
    /// headers under 12 bytes; with `InvalidMetadata` for unknown full vector
    /// precision or dimension mode bytes.
    pub fn from_header(header: &[u8]) -> (r: Result<Self, ElidError>)
        ensures
            r is Ok <==> parse_header(header@) is Some,
            r matches Ok(info) ==> parse_header(header@) == Some(info),
            header@.len() < 2 ==> r == Err::<ProfileInfo, ElidError>(ElidError::InvalidHeader),
            header@.len() >= 2 && header@[0] & 0x0Fu8 == 4 ==> full_vector_header_error(
                header@,
                r,
            ),
    {
        if header.len() < 2 {
            return Err(ElidError::InvalidHeader);
        }
        let version = (header[0] & 0xF0) >> 4;
        let profile_type = header[0] & 0x0F;
        if profile_type == 0x04 {
            return Self::from_full_vector_header(version, header);
        }
        let transform_id = if header.len() >= 4 {
            Some((header[2] as u16) * 256 + (header[3] as u16))
        } else {
            None
        };
        Ok(ProfileInfo {
            version,
            profile_type,
            transform_id,
            model_id: None,
            original_dims: None,
            precision: None,
            dimension_mode: None,
            seed: None,
        })
    }

    /// Decodes the 12-byte full vector header.
    fn from_full_vector_header(version: u8, header: &[u8]) -> (r: Result<Self, ElidError>)
        requires
            header@.len() >= 2,
            header@[0] & 0x0Fu8 == 4,
            version == header_version(header@[0]),
        ensures
            r is Ok <==> parse_header(header@) is Some,
            r matches Ok(info) ==> parse_header(header@) == Some(info),
            full_vector_header_error(header@, r),
    {
        if header.len() < 12 {
            return Err(ElidError::InvalidHeader);
        }
        let original_dims = (header[2] as u16) * 256 + (header[3] as u16);
        let p = header[4];
        let precision = if p == 0 {
            VectorPrecision::Full32
        } else if p == 1 {
            VectorPrecision::Half16
        } else if p == 2 {
            VectorPrecision::Quant8
        } else if 3 <= p && p <= 35 {
            VectorPrecision::Bits { bits: p - 3 }
        } else {
            return Err(ElidError::InvalidMetadata(String::from_str("Invalid precision type")));
        };
        let dim_mode_type = header[5];
        let target_dims = (header[6] as u16) * 256 + (header[7] as u16);
        let dimension_mode = if dim_mode_type == 0 {
            DimensionMode::Preserve
        } else if dim_mode_type == 1 {
            DimensionMode::Reduce { target_dims }
        } else if dim_mode_type == 2 {
            DimensionMode::Common { dims: target_dims }
        } else {
            return Err(ElidError::InvalidMetadata(String::from_str("Invalid dimension mode")));
        };
        let seed_low: u64 = (((header[8] as u64) * 256 + (header[9] as u64)) * 256 + (
        header[10] as u64)) * 256 + (header[11] as u64);
        Ok(ProfileInfo {
            version,
            profile_type: 0x04,
            transform_id: None,
            model_id: None,
            original_dims: Some(original_dims),
            precision: Some(precision),
            dimension_mode: Some(dimension_mode),
            seed: Some(seed_low),
        })
    }

    /// Encodes the record as header bytes, in the format `from_header` reads.
    #[must_use]
    pub fn to_header(&self) -> (r: Vec<u8>)
        requires
            header_encodable(*self),
        ensures
            r@ == spec_to_header(*self),
    {
        let mut bytes: Vec<u8> = Vec::new();
        bytes.push((self.version << 4) | (self.profile_type & 0x0F));
        bytes.push(0);
        if self.profile_type == 0x04 {
            let orig_dims = match self.original_dims {
                Some(d) => d,
                None => 0,
            };
            bytes.push((orig_dims / 256) as u8);
            bytes.push((orig_dims % 256) as u8);
            let precision_byte: u8 = match self.precision {
                Some(VectorPrecision::Full32) => 0,
                Some(VectorPrecision::Half16) => 1,
                Some(VectorPrecision::Quant8) => 2,
                Some(VectorPrecision::Bits { bits }) => bits + 3,
                None => 0,
            };
            bytes.push(precision_byte);
            let (mode_byte, target_dims): (u8, u16) = match self.dimension_mode {
                Some(DimensionMode::Preserve) => (0, 0),
                Some(DimensionMode::Reduce { target_dims }) => (1, target_dims),
                Some(DimensionMode::Common { dims }) => (2, dims),
                None => (0, 0),
            };
            bytes.push(mode_byte);
            bytes.push((target_dims / 256) as u8);
            bytes.push((target_dims % 256) as u8);
            let seed_low: u64 = match self.seed {
                Some(x) => x,
                None => 0,
            } % 0x1_0000_0000;
            bytes.push((seed_low / 0x100_0000) as u8);
            bytes.push(((seed_low / 0x1_0000) % 256) as u8);
            bytes.push(((seed_low / 0x100) % 256) as u8);
            bytes.push((seed_low % 256) as u8);
            assert(bytes@ =~= spec_to_header(*self));
            return bytes;
        }
        if let Some(tid) = self.transform_id {
            bytes.push((tid / 256) as u8);
            bytes.push((tid % 256) as u8);
        }
        assert(bytes@ =~= spec_to_header(*self));
        bytes
    }

    /// Profile information for a full vector encoding.
    #[must_use]
    pub fn from_full_vector(
        original_dims: u16,
        precision: VectorPrecision,
        dimensions: DimensionMode,
        seed: u64,
    ) -> (r: Self)
        ensures
            r == (ProfileInfo {
                version: 0,
                profile_type: 0x04,
                transform_id: None,
                model_id: None,
                original_dims: Some(original_dims),
                precision: Some(precision),
                dimension_mode: Some(dimensions),
                seed: Some(seed),
            }),
    {
        ProfileInfo {
            version: 0,
            profile_type: 0x04,
            transform_id: None,
            model_id: None,
            original_dims: Some(original_dims),
            precision: Some(precision),
            dimension_mode: Some(dimensions),
            seed: Some(seed),
        }
    }
}

/// The errors a full vector header can raise: too short, then an unknown
/// precision byte, then an unknown dimension mode byte.
pub open spec fn full_vector_header_error(h: Seq<u8>, r: Result<ProfileInfo, ElidError>) -> bool {
    if h.len() < 12 {
        r == Err::<ProfileInfo, ElidError>(ElidError::InvalidHeader)
    } else if precision_from_byte(h[4]) is None {
        r matches Err(ElidError::InvalidMetadata(m)) && m@ == "Invalid precision type"@
    } else if mode_from_byte(h[5], be16(h[6], h[7])) is None {
        r matches Err(ElidError::InvalidMetadata(m)) && m@ == "Invalid dimension mode"@
    } else {
        r is Ok
    }
}

// ============================================================================
// Profile
// ============================================================================

/// Encoding profile determining how identifiers are generated.
#[derive(Clone, Copy, Debug, PartialEq, Eq)]
pub enum Profile {
    /// 128-bit SimHash (cosine similarity via Hamming distance)
    Mini128 {
        /// Seed for deterministic random projections
        seed: u64,
    },
    /// Morton curve encoding (sortable locality)
    Morton10x10 {
        /// Number of dimensions to encode (1-32)
        dims: u8,
        /// Bits per dimension (1-16)
        bits_per_dim: u8,
        /// Rotation/PCA transform ID (optional)
        transform_id: Option<u16>,
    },
    /// Hilbert curve encoding (higher quality, slower)
    Hilbert10x10 {
        /// Number of dimensions to encode (1-32)
        dims: u8,
        /// Bits per dimension (1-16)
        bits_per_dim: u8,
        /// Rotation/PCA transform ID (optional)
        transform_id: Option<u16>,
    },
    /// Full vector encoding (reversible, supports various precisions)
    FullVector {
        /// Precision for each dimension value
        precision: VectorPrecision,
        /// How to handle dimensions (preserve, reduce, or common space)
        dimensions: DimensionMode,
        /// Seed for deterministic random projections
        seed: u64,
    },
}

/// Standard Mini128 seed, the ASCII bytes of "ELIDSIMH".
pub const MINI128_SEED: u64 = 0x454c4944_53494d48;

/// Seed of the lossless profile, the ASCII bytes of "ELIDFULL".
pub const LOSSLESS_SEED: u64 = 0x454c4944_46554c4c;

/// Seed of size-constrained profiles, the ASCII bytes of "ELIDMAXL".
pub const MAX_LENGTH_SEED: u64 = 0x454c4944_4d41584c;

/// Seed of cross-dimensional profiles, the ASCII bytes of "ELIDXDIM".
pub const CROSS_DIM_SEED: u64 = 0x454c4944_58444949;

/// Whether a precision stores quantization levels, after a 64-bit range
/// (the minimum and maximum as 32-bit patterns).
pub open spec fn stores_range(precision: VectorPrecision) -> bool {
    precision is Quant8 || precision is Bits
}

/// Bits of a full vector payload holding `n` values: 32 or 16 per value, or
/// the 64-bit range followed by the levels packed into whole bytes.
pub open spec fn full_vector_payload_bits(precision: VectorPrecision, n: nat) -> nat {
    let b = spec_bits_per_dim(precision) as nat;
    if stores_range(precision) {
        64 + 8 * ((n * b + 7) / 8)
    } else {
        n * b
    }
}

/// Payload bits of a profile for a given input dimension count.
pub open spec fn spec_bit_length_for_dims(p: Profile, input_dims: u16) -> nat {
    match p {
        Profile::Mini128 { .. } => 128,
        Profile::Morton10x10 { dims, bits_per_dim, .. } => dims as nat * bits_per_dim as nat,
        Profile::Hilbert10x10 { dims, bits_per_dim, .. } => dims as nat * bits_per_dim as nat,
        Profile::FullVector { precision, dimensions, .. } => full_vector_payload_bits(
            precision,
            spec_output_dims(dimensions, input_dims) as nat,
        ),
    }
}

/// Header bits counted for a profile: 96 for full vector, 16 otherwise.
pub open spec fn header_bits(p: Profile) -> nat {
    match p {
        Profile::FullVector { .. } => 96,
        _ => 16,
    }
}

/// Expected base32hex length for a given input dimension count.
pub open spec fn spec_string_length_for_dims(p: Profile, input_dims: u16) -> nat {
    (spec_bit_length_for_dims(p, input_dims) + header_bits(p) + 4) / 5
}

/// Header type number of a profile.
pub open spec fn spec_type_id(p: Profile) -> u8 {
    match p {
        Profile::Mini128 { .. } => 0x01,
        Profile::Morton10x10 { .. } => 0x02,
        Profile::Hilbert10x10 { .. } => 0x03,
        Profile::FullVector { .. } => 0x04,
    }
}

/// The lossless profile: Full32 precision, all dimensions preserved.
pub open spec fn spec_lossless() -> Profile {
    Profile::FullVector {
        precision: VectorPrecision::Full32,
        dimensions: DimensionMode::Preserve,
        seed: LOSSLESS_SEED,
    }
}

/// How many values of a precision a payload of `budget` bits holds: for the
/// quantized precisions, what the bytes left after the 64-bit range hold.
pub open spec fn fit_count(budget: nat, precision: VectorPrecision) -> nat {
    let b = spec_bits_per_dim(precision) as nat;
    if stores_range(precision) {
        if budget >= 64 {
            (8 * ((budget - 64) as nat / 8)) / b
        } else {
            0
        }
    } else {
        budget / b
    }
}

/// Profile chosen by `max_length` at a given precision, or `None` when that
/// precision fits neither all dimensions nor at least 16 of them.
pub open spec fn fit_at(payload_bits: nat, original_dims: u16, precision: VectorPrecision) -> Option<
    Profile,
> {
    let fit = fit_count(payload_bits, precision);
    if fit >= original_dims {
        Some(
            Profile::FullVector {
                precision,
                dimensions: DimensionMode::Preserve,
                seed: MAX_LENGTH_SEED,
            },
        )
    } else if fit >= 16 {
        Some(
            Profile::FullVector {
                precision,
                dimensions: DimensionMode::Reduce { target_dims: fit as u16 },
                seed: MAX_LENGTH_SEED,
            },
        )
    } else {
        None
    }
}

/// Payload bits `max_length` allows: five per character past a
/// 20-character header.
pub open spec fn max_length_budget(max_chars: nat) -> nat {
    if max_chars > 20 {
        ((max_chars - 20) * 5) as nat
    } else {
        0
    }
}

/// Whether `max_length` finds a precision that fits: the budget is positive
/// and either keeps all dimensions at 32 bits or some precision keeps all
/// dimensions or at least 16 of them (else it falls back to a 1-bit profile
/// too long for the limit).
pub open spec fn max_length_found(max_chars: nat, original_dims: u16) -> bool {
    let pb = max_length_budget(max_chars);
    &&& pb > 0
    &&& (pb / (original_dims as nat) >= 32 || fit_at(pb, original_dims, VectorPrecision::Full32)
        is Some || fit_at(pb, original_dims, VectorPrecision::Half16) is Some || fit_at(
        pb,
        original_dims,
        VectorPrecision::Quant8,
    ) is Some || fit_at(pb, original_dims, VectorPrecision::Bits { bits: 4 }) is Some || fit_at(
        pb,
        original_dims,
        VectorPrecision::Bits { bits: 2 },
    ) is Some || fit_at(pb, original_dims, VectorPrecision::Bits { bits: 1 }) is Some)
}

/// The profile `max_length` chooses: the finest precision (Full32, Half16,
/// Quant8, then 4, 2 and 1 bits) that keeps all dimensions or at least 16 of
/// them within the payload left after a 20-character header.
pub open spec fn spec_max_length(max_chars: nat, original_dims: u16) -> Profile {
    let payload_bits: nat = max_length_budget(max_chars);
    if payload_bits == 0 {
        Profile::FullVector {
            precision: VectorPrecision::Bits { bits: 1 },
            dimensions: DimensionMode::Reduce { target_dims: 1 },
            seed: MAX_LENGTH_SEED,
        }
    } else if payload_bits / (original_dims as nat) >= 32 {
        spec_lossless()
    } else {
        first_fit(
            fit_at(payload_bits, original_dims, VectorPrecision::Full32),
            first_fit(
                fit_at(payload_bits, original_dims, VectorPrecision::Half16),
                first_fit(
                    fit_at(payload_bits, original_dims, VectorPrecision::Quant8),
                    first_fit(
                        fit_at(payload_bits, original_dims, VectorPrecision::Bits { bits: 4 }),
                        first_fit(
                            fit_at(payload_bits, original_dims, VectorPrecision::Bits { bits: 2 }),
                            first_fit(
                                fit_at(payload_bits, original_dims, VectorPrecision::Bits { bits: 1 }),
                                Profile::FullVector {
                                    precision: VectorPrecision::Bits { bits: 1 },
                                    dimensions: fallback_mode(payload_bits, original_dims),
                                    seed: MAX_LENGTH_SEED,
                                },
                            ),
                        ),
                    ),
                ),
            ),
        )
    }
}

/// Dimension mode of the 1-bit profile `max_length` falls back to when no
/// precision fits: all dimensions when the payload bits cover them, else as
/// many as there are payload bits.
pub open spec fn fallback_mode(payload_bits: nat, original_dims: u16) -> DimensionMode {
    if payload_bits >= original_dims {
        DimensionMode::Preserve
    } else {
        DimensionMode::Reduce { target_dims: payload_bits as u16 }
    }
}

/// The profile found at a precision, if any, else the fallback.
pub open spec fn first_fit(found: Option<Profile>, fallback: Profile) -> Profile {
    match found {
        Some(p) => p,
        None => fallback,
    }
}

/// The payload of any profile is at most 65535 * 255 + 71 bits.
pub proof fn lemma_bit_length_bound(p: Profile, input_dims: u16)
    ensures
        spec_bit_length_for_dims(p, input_dims) <= 0xFFFF * 0xFF + 71,
{
    let (a, b): (nat, nat) = match p {
        Profile::Mini128 { .. } => (128, 1),
        Profile::Morton10x10 { dims, bits_per_dim, .. } => (dims as nat, bits_per_dim as nat),
        Profile::Hilbert10x10 { dims, bits_per_dim, .. } => (dims as nat, bits_per_dim as nat),
        Profile::FullVector { precision, dimensions, .. } => (
            spec_output_dims(dimensions, input_dims) as nat,
            spec_bits_per_dim(precision) as nat,
        ),
    };
    assert(a * b <= 0xFFFF * 0xFF) by (nonlinear_arith)
        requires
            a <= 0xFFFF,
            b <= 0xFF,
    ;
    if p is FullVector {
        assert(8 * ((a * b + 7) / 8) <= a * b + 7);
    } else {
        assert(a * b == spec_bit_length_for_dims(p, input_dims));
    }
}

impl Default for Profile {
    /// Mini128 with the standard seed ("ELIDSIMH").
    fn default() -> (r: Self)
        ensures
            r == (Profile::Mini128 { seed: MINI128_SEED }),
    {
        Profile::Mini128 { seed: MINI128_SEED }
    }
}

impl Profile {
    /// Expected payload length in bits, excluding the header; full vector
    /// profiles are estimated for 768-dimensional input.
    #[must_use]
    pub fn bit_length(&self) -> (r: usize)
        ensures
            r == spec_bit_length_for_dims(*self, 768),
    {
        self.bit_length_for_dims(768)
    }

    /// Expected payload length in bits for a given input dimension count
    /// (for the quantized precisions, the 64-bit range and the levels packed
    /// into whole bytes).
    #[must_use]
    pub fn bit_length_for_dims(&self, input_dims: u16) -> (r: usize)
        ensures
            r == spec_bit_length_for_dims(*self, input_dims),
    {
        match self {
            Profile::Mini128 { .. } => 128,
            Profile::Morton10x10 { dims, bits_per_dim, .. } | Profile::Hilbert10x10 {
                dims,
                bits_per_dim,
                ..
            } => {
                proof {
                    assert((*dims as nat) * (*bits_per_dim as nat) <= 0xFF * 0xFF) by (
                    nonlinear_arith)
                        requires
                            *dims <= 0xFF,
                            *bits_per_dim <= 0xFF,
                    ;
                }
                (*dims as usize) * (*bits_per_dim as usize)
            },
            Profile::FullVector { precision, dimensions, .. } => {
                let output_dims = dimensions.output_dims(input_dims);
                let bits = precision.bits_per_dim();
                proof {
                    assert((output_dims as nat) * (bits as nat) <= 0xFFFF * 0xFF) by (
                    nonlinear_arith)
                        requires
                            output_dims <= 0xFFFF,
                            bits <= 0xFF,
                    ;
                }
                let value_bits = (output_dims as usize) * (bits as usize);
                match precision {
                    VectorPrecision::Quant8 | VectorPrecision::Bits { .. } => 64 + 8 * ((value_bits
                        + 7) / 8),
                    _ => value_bits,
                }
            },
        }
    }

    /// Expected base32hex string length (header included, rounded up) for
    /// 768-dimensional input.
    #[must_use]
    pub fn string_length(&self) -> (r: usize)
        ensures
            r == spec_string_length_for_dims(*self, 768),
    {
        self.string_length_for_dims(768)
    }

    /// Expected base32hex string length for a given input dimension count:
    /// `ceil((payload bits + header bits) / 5)`.
    #[must_use]
    pub fn string_length_for_dims(&self, input_dims: u16) -> (r: usize)
        ensures
            r == spec_string_length_for_dims(*self, input_dims),
    {
        let header_bits: usize = match self {
            Profile::FullVector { .. } => 96,
            _ => 16,
        };
        let bits = self.bit_length_for_dims(input_dims);
        proof {
            lemma_bit_length_bound(*self, input_dims);
        }
        (bits + header_bits + 4) / 5
    }

    /// Profile type ID used in the header byte: 0x01 Mini128, 0x02
    /// Morton10x10, 0x03 Hilbert10x10, 0x04 FullVector.
    #[must_use]
    pub fn type_id(&self) -> (r: u8)
        ensures
            r == spec_type_id(*self),
    {
        match self {
            Profile::Mini128 { .. } => 0x01,
            Profile::Morton10x10 { .. } => 0x02,
            Profile::Hilbert10x10 { .. } => 0x03,
            Profile::FullVector { .. } => 0x04,
        }
    }

    /// Whether this profile supports decoding back to the embedding.
    #[must_use]
    pub fn is_reversible(&self) -> (r: bool)
        ensures
            r <==> self is FullVector,
    {
        match self {
            Profile::FullVector { .. } => true,
            _ => false,
        }
    }

    /// The lossless full vector profile (Full32, all dimensions preserved).
    #[must_use]
    pub fn lossless() -> (r: Self)
        ensures
            r == spec_lossless(),
    {
        Profile::FullVector {
            precision: VectorPrecision::Full32,
            dimensions: DimensionMode::Preserve,
            seed: LOSSLESS_SEED,
        }
    }

    /// The compressed profile for a retention budget, given the dimension
    /// counts the budget affords at 32, 16 and 8 bits per dimension (the
    /// budget `32 * original_dims * retention` bits divided by 32, 16 and 8,
    /// each rounded to the nearest integer).
    #[must_use]
    pub fn compressed_from_targets(
        full32_dims: u16,
        half16_dims: u16,
        quant8_dims: u16,
        original_dims: u16,
    ) -> (r: Self)
        ensures
            r == spec_compressed(full32_dims, half16_dims, quant8_dims, original_dims),
    {
        if full32_dims >= original_dims {
            return Profile::lossless();
        }
        if full32_dims >= original_dims / 4 {
            return Profile::FullVector {
                precision: VectorPrecision::Full32,
                dimensions: DimensionMode::Reduce {
                    target_dims: if full32_dims >= 1 {
                        full32_dims
                    } else {
                        1
                    },
                },
                seed: COMPRESSED_SEED,
            };
        }
        if half16_dims >= original_dims / 4 {
            return Profile::FullVector {
                precision: VectorPrecision::Half16,
                dimensions: Self::keep_dims(half16_dims, original_dims),
                seed: COMPRESSED_SEED,
            };
        }
        Profile::FullVector {
            precision: VectorPrecision::Quant8,
            dimensions: Self::keep_dims(quant8_dims, original_dims),
            seed: COMPRESSED_SEED,
        }
    }

    fn keep_dims(target: u16, original_dims: u16) -> (r: DimensionMode)
        ensures
            r == keep_dims(target, original_dims),
    {
        if target >= original_dims {
            DimensionMode::Preserve
        } else {
            DimensionMode::Reduce {
                target_dims: if target >= 1 {
                    target
                } else {
                    1
                },
            }
        }
    }

    /// A full vector profile whose expected string length fits `max_chars`,
    /// keeping as much precision and as many dimensions as fit.
    #[must_use]
    pub fn max_length(max_chars: usize, original_dims: u16) -> (r: Self)
        requires
            max_chars <= 20 || original_dims > 0,
            max_chars <= 20 || (max_chars - 20) * 5 <= usize::MAX,
        ensures
            r == spec_max_length(max_chars as nat, original_dims),
    {
        let header_chars: usize = 20;
        let payload_chars = if max_chars > header_chars {
            max_chars - header_chars
        } else {
            0
        };
        let payload_bits = payload_chars * 5;
        if payload_bits == 0 {
            return Profile::FullVector {
                precision: VectorPrecision::Bits { bits: 1 },
                dimensions: DimensionMode::Reduce { target_dims: 1 },
                seed: MAX_LENGTH_SEED,
            };
        }
        let bits_per_dim_full32 = payload_bits / (original_dims as usize);
        if bits_per_dim_full32 >= 32 {
            return Profile::lossless();
        }
        if let Some(p) = Self::fit_at(payload_bits, original_dims, VectorPrecision::Full32) {
            return p;
        }
        if let Some(p) = Self::fit_at(payload_bits, original_dims, VectorPrecision::Half16) {
            return p;
        }
        if let Some(p) = Self::fit_at(payload_bits, original_dims, VectorPrecision::Quant8) {
            return p;
        }
        if let Some(p) = Self::fit_at(payload_bits, original_dims, VectorPrecision::Bits { bits: 4 }) {
            return p;
        }
        if let Some(p) = Self::fit_at(payload_bits, original_dims, VectorPrecision::Bits { bits: 2 }) {
            return p;
        }
        if let Some(p) = Self::fit_at(payload_bits, original_dims, VectorPrecision::Bits { bits: 1 }) {
            return p;
        }
        let dimensions = if payload_bits >= original_dims as usize {
            DimensionMode::Preserve
        } else {
            DimensionMode::Reduce { target_dims: payload_bits as u16 }
        };
        Profile::FullVector {
            precision: VectorPrecision::Bits { bits: 1 },
            dimensions,
            seed: MAX_LENGTH_SEED,
        }
    }

    fn fit_at(payload_bits: usize, original_dims: u16, precision: VectorPrecision) -> (r: Option<
        Profile,
    >)
        requires
            spec_bits_per_dim(precision) > 0,
        ensures
            r == fit_at(payload_bits as nat, original_dims, precision),
    {
        let bits = precision.bits_per_dim() as usize;
        let dims_that_fit = match precision {
            VectorPrecision::Quant8 | VectorPrecision::Bits { .. } => {
                if payload_bits >= 64 {
                    (8 * ((payload_bits - 64) / 8)) / bits
                } else {
                    0
                }
            },
            _ => payload_bits / bits,
        };
        if dims_that_fit >= original_dims as usize {
            Some(
                Profile::FullVector {
                    precision,
                    dimensions: DimensionMode::Preserve,
                    seed: MAX_LENGTH_SEED,
                },
            )
        } else if dims_that_fit >= 16 {
            Some(
                Profile::FullVector {
                    precision,
                    dimensions: DimensionMode::Reduce { target_dims: dims_that_fit as u16 },
                    seed: MAX_LENGTH_SEED,
                },
            )
        } else {
            None
        }
    }

    /// A profile projecting every vector to a common `common_dims`-dimensional
    /// space at half precision, so vectors of different original dimensions
    /// can be compared.
    #[must_use]
    pub fn cross_dimensional(common_dims: u16) -> (r: Self)
        ensures
            r == (Profile::FullVector {
                precision: VectorPrecision::Half16,
                dimensions: DimensionMode::Common { dims: common_dims },
                seed: CROSS_DIM_SEED,
            }),
    {
        Profile::FullVector {
            precision: VectorPrecision::Half16,
            dimensions: DimensionMode::Common { dims: common_dims },
            seed: CROSS_DIM_SEED,
        }
    }

    /// A cross-dimensional profile with a chosen precision.
    #[must_use]
    pub fn cross_dimensional_with_precision(common_dims: u16, precision: VectorPrecision) -> (r:
        Self)
        ensures
            r == (Profile::FullVector {
                precision,
                dimensions: DimensionMode::Common { dims: common_dims },
                seed: CROSS_DIM_SEED,
            }),
    {
        Profile::FullVector {
            precision,
            dimensions: DimensionMode::Common { dims: common_dims },
            seed: CROSS_DIM_SEED,
        }
    }
}

/// Seed of compressed profiles, the ASCII bytes of "ELIDCOMP".
pub const COMPRESSED_SEED: u64 = 0x454c4944_434f4d50;

/// Dimension mode keeping `target` of `original_dims` dimensions (at least 1),
/// or all of them when the target reaches the original count.
pub open spec fn keep_dims(target: u16, original_dims: u16) -> DimensionMode {
    if target >= original_dims {
        DimensionMode::Preserve
    } else {
        DimensionMode::Reduce { target_dims: if target >= 1 { target } else { 1 } }
    }
}

/// The profile `compressed` chooses from the dimension counts its bit budget
/// affords at 32, 16 and 8 bits per dimension: Full32 when that keeps all
/// dimensions or at least a quarter of them, else Half16 when that keeps a
/// quarter, else Quant8.
pub open spec fn spec_compressed(
    full32_dims: u16,
    half16_dims: u16,
    quant8_dims: u16,
    original_dims: u16,
) -> Profile {
    if full32_dims >= original_dims {
        spec_lossless()
    } else if full32_dims >= original_dims / 4 {
        Profile::FullVector {
            precision: VectorPrecision::Full32,
            dimensions: DimensionMode::Reduce {
                target_dims: if full32_dims >= 1 { full32_dims } else { 1 },
            },
            seed: COMPRESSED_SEED,
        }
    } else if half16_dims >= original_dims / 4 {
        Profile::FullVector {
            precision: VectorPrecision::Half16,
            dimensions: keep_dims(half16_dims, original_dims),
            seed: COMPRESSED_SEED,
        }
    } else {
        Profile::FullVector {
            precision: VectorPrecision::Quant8,
            dimensions: keep_dims(quant8_dims, original_dims),
            seed: COMPRESSED_SEED,
        }
    }
}

/// How `compressed` chooses, from the dimensions that the budget affords at
/// 32, 16 and 8 bits per dimension: lossless when Full32 keeps all
/// dimensions; Full32 reduced when it keeps at least a quarter of them; else
/// Half16 when that keeps a quarter; else 8-bit levels. The chosen depth keeps
/// what its budget affords (at least one dimension), or all dimensions when
/// the budget covers them.
pub proof fn lemma_compressed_choice(f: u16, h: u16, q: u16, d: u16)
    ensures
        f >= d ==> spec_compressed(f, h, q, d) == (Profile::FullVector {
            precision: VectorPrecision::Full32,
            dimensions: DimensionMode::Preserve,
            seed: 0x454c4944_46554c4cu64,
        }),
        d / 4 <= f < d ==> spec_compressed(f, h, q, d) == (Profile::FullVector {
            precision: VectorPrecision::Full32,
            dimensions: DimensionMode::Reduce { target_dims: if f >= 1 { f } else { 1 } },
            seed: 0x454c4944_434f4d50u64,
        }),
        f < d / 4 && h >= d / 4 ==> spec_compressed(f, h, q, d) == (Profile::FullVector {
            precision: VectorPrecision::Half16,
            dimensions: if h >= d {
                DimensionMode::Preserve
            } else {
                DimensionMode::Reduce { target_dims: if h >= 1 { h } else { 1 } }
            },
            seed: 0x454c4944_434f4d50u64,
        }),
        f < d / 4 && h < d / 4 ==> spec_compressed(f, h, q, d) == (Profile::FullVector {
            precision: VectorPrecision::Quant8,
            dimensions: if q >= d {
                DimensionMode::Preserve
            } else {
                DimensionMode::Reduce { target_dims: if q >= 1 { q } else { 1 } }
            },
            seed: 0x454c4944_434f4d50u64,
        }),
{
}

/// A profile found at some precision uses no more payload bits than given.
proof fn lemma_fit_at_within(payload_bits: nat, original_dims: u16, precision: VectorPrecision)
    requires
        spec_bits_per_dim(precision) > 0,
        original_dims > 0,
        fit_at(payload_bits, original_dims, precision) is Some,
    ensures
        spec_bit_length_for_dims(
            fit_at(payload_bits, original_dims, precision)->0,
            original_dims,
        ) <= payload_bits,
{
    let b = spec_bits_per_dim(precision) as nat;
    let fit = fit_count(payload_bits, precision);
    let used = if fit >= original_dims {
        original_dims as nat
    } else {
        fit
    };
    assert(used * b <= fit * b) by (nonlinear_arith)
        requires
            used <= fit,
    ;
    if stores_range(precision) {
        assert(payload_bits >= 64);
        let k: nat = (payload_bits - 64) as nat / 8;
        assert(fit * b <= 8 * k) by (nonlinear_arith)
            requires
                b > 0,
                fit == (8 * k) / b,
        ;
        assert((used * b + 7) / 8 <= k);
    } else {
        assert(fit * b <= payload_bits) by (nonlinear_arith)
            requires
                b > 0,
                fit == payload_bits / b,
        ;
    }
}

/// At a precision, `n` values (at least one) fit a budget exactly when `n`
/// is at most the count `fit_count` gives.
proof fn lemma_fit_count_exact(budget: nat, precision: VectorPrecision, n: nat)
    requires
        spec_bits_per_dim(precision) > 0,
        n >= 1,
    ensures
        full_vector_payload_bits(precision, n) <= budget <==> n <= fit_count(budget, precision),
{
    let b = spec_bits_per_dim(precision) as nat;
    if stores_range(precision) {
        let c = (n * b + 7) / 8;
        assert(n * b >= 1) by (nonlinear_arith)
            requires
                n >= 1,
                b >= 1,
        ;
        if budget >= 64 {
            let k: nat = (budget - 64) as nat / 8;
            assert(64 + 8 * c <= budget <==> c <= k);
            assert(c <= k <==> n * b <= 8 * k);
            assert(n * b <= 8 * k <==> n <= (8 * k) / b) by (nonlinear_arith)
                requires
                    b > 0,
            ;
        }
    } else {
        assert(n * b <= budget <==> n <= budget / b) by (nonlinear_arith)
            requires
                b > 0,
        ;
    }
}

/// Whether `n` values at a precision fit the payload budget of `max_chars`
/// characters (five bits per character after a 20-character header).
pub open spec fn fits_chars(max_chars: nat, precision: VectorPrecision, n: nat) -> bool {
    96 + full_vector_payload_bits(precision, n) <= 5 * max_chars - 4
}

/// `max_length` makes the best choice: it takes the first precision, in the
/// order Full32, Half16, Quant8, 4, 2 and 1 bits, at which either all
/// dimensions or at least 16 of them fit the limit, and at that precision
/// keeps all dimensions if they fit, else as many as fit.
pub proof fn lemma_max_length_optimal(max_chars: nat, original_dims: u16)
    requires
        original_dims > 0,
        max_length_found(max_chars, original_dims),
    ensures
        spec_max_length(max_chars, original_dims) matches Profile::FullVector {
            precision,
            dimensions,
            ..
        } && {
            let d = original_dims as nat;
            let n = spec_output_dims(dimensions, original_dims) as nat;
            let earlier = |p: VectorPrecision|
                !fits_chars(max_chars, p, d) && !fits_chars(max_chars, p, 16);
            &&& fits_chars(max_chars, precision, n)
            &&& n == d || (n >= 16 && !fits_chars(max_chars, precision, n + 1))
            &&& precision != VectorPrecision::Full32 ==> earlier(VectorPrecision::Full32)
            &&& precision != VectorPrecision::Full32 && precision != VectorPrecision::Half16
                ==> earlier(VectorPrecision::Half16)
            &&& (precision is Bits) ==> earlier(VectorPrecision::Quant8)
            &&& (precision is Bits && precision != VectorPrecision::Bits { bits: 4 }) ==> earlier(
                VectorPrecision::Bits { bits: 4 },
            )
            &&& precision == VectorPrecision::Bits { bits: 1 } ==> earlier(
                VectorPrecision::Bits { bits: 2 },
            )
            &&& (precision is Bits ==> precision == VectorPrecision::Bits { bits: 4 } || precision
                == VectorPrecision::Bits { bits: 2 } || precision == VectorPrecision::Bits {
                bits: 1,
            })
        },
{
    let pb = max_length_budget(max_chars);
    let d = original_dims as nat;
    assert(max_chars > 20 && pb == 5 * max_chars - 100);
    assert forall|p: VectorPrecision, n: nat|
        spec_bits_per_dim(p) > 0 && n >= 1 implies (fits_chars(max_chars, p, n) <==> n
        <= fit_count(pb, p)) by {
        lemma_fit_count_exact(pb, p, n);
    }
    let full = VectorPrecision::Full32;
    let h16 = VectorPrecision::Half16;
    let q8 = VectorPrecision::Quant8;
    let b4 = VectorPrecision::Bits { bits: 4 };
    let b2 = VectorPrecision::Bits { bits: 2 };
    let b1 = VectorPrecision::Bits { bits: 1 };
    if pb / d >= 32 {
        assert(d * 32 <= pb) by (nonlinear_arith)
            requires
                pb / d >= 32,
                d > 0,
        ;
        assert(fits_chars(max_chars, full, d));
    } else {
        assert(pb / 32 < d) by (nonlinear_arith)
            requires
                pb / d < 32,
                d > 0,
        ;
        assert(fit_count(pb, full) == pb / 32);
    }
}

/// A profile made by `max_length` keeps its expected string length within
/// the requested number of characters, whenever some precision fits (else
/// it falls back to a 1-bit profile longer than the limit).
pub proof fn lemma_max_length_fits(max_chars: nat, original_dims: u16)
    requires
        original_dims > 0,
        max_length_found(max_chars, original_dims),
    ensures
        spec_string_length_for_dims(spec_max_length(max_chars, original_dims), original_dims)
            <= max_chars,
{
    let payload_bits = max_length_budget(max_chars);
    let d = original_dims as nat;
    let p = spec_max_length(max_chars, original_dims);
    if payload_bits / d >= 32 {
        assert(d * 32 <= payload_bits) by (nonlinear_arith)
            requires
                payload_bits / d >= 32,
                d > 0,
        ;
        assert(spec_bit_length_for_dims(p, original_dims) == d * 32);
    } else {
        let full = fit_at(payload_bits, original_dims, VectorPrecision::Full32);
        let h16 = fit_at(payload_bits, original_dims, VectorPrecision::Half16);
        let q8 = fit_at(payload_bits, original_dims, VectorPrecision::Quant8);
        let b4 = fit_at(payload_bits, original_dims, VectorPrecision::Bits { bits: 4 });
        let b2 = fit_at(payload_bits, original_dims, VectorPrecision::Bits { bits: 2 });
        let b1 = fit_at(payload_bits, original_dims, VectorPrecision::Bits { bits: 1 });
        let last = Profile::FullVector {
            precision: VectorPrecision::Bits { bits: 1 },
            dimensions: fallback_mode(payload_bits, original_dims),
            seed: MAX_LENGTH_SEED,
        };
        assert(p == first_fit(
            full,
            first_fit(h16, first_fit(q8, first_fit(b4, first_fit(b2, first_fit(b1, last))))),
        ));
        if full is Some {
            lemma_fit_at_within(payload_bits, original_dims, VectorPrecision::Full32);
            assert(p == full->0);
        } else if h16 is Some {
            lemma_fit_at_within(payload_bits, original_dims, VectorPrecision::Half16);
            assert(p == h16->0);
        } else if q8 is Some {
            lemma_fit_at_within(payload_bits, original_dims, VectorPrecision::Quant8);
            assert(p == q8->0);
        } else if b4 is Some {
            lemma_fit_at_within(payload_bits, original_dims, VectorPrecision::Bits { bits: 4 });
            assert(p == b4->0);
        } else if b2 is Some {
            lemma_fit_at_within(payload_bits, original_dims, VectorPrecision::Bits { bits: 2 });
            assert(p == b2->0);
        } else {
            lemma_fit_at_within(payload_bits, original_dims, VectorPrecision::Bits { bits: 1 });
            assert(p == b1->0);
        }
        assert(spec_bit_length_for_dims(p, original_dims) <= payload_bits);
    }
}

// ============================================================================
// QuantizedCoords
// ============================================================================

/// Quantized coordinates for space-filling curve encoding: the first `dims`
/// embedding values, each mapped to an integer of `bits_per_dim` bits.
#[derive(Clone, Debug)]
pub struct QuantizedCoords {
    coords: Vec<u16>,
    bits: u8,
}

impl View for QuantizedCoords {
    type V = (Seq<u16>, u8);

    closed spec fn view(&self) -> (Seq<u16>, u8) {
        (self.coords@, self.bits)
    }
}

/// Whether curve parameters are usable for an embedding of `embedding_dim`
/// dimensions: 1-32 dimensions, 1-16 bits each, no more dimensions than the
/// embedding has.
pub open spec fn curve_params_valid(dims: u8, bits_per_dim: u8, embedding_dim: usize) -> bool {
    1 <= dims <= 32 && 1 <= bits_per_dim <= 16 && dims as usize <= embedding_dim
}

impl QuantizedCoords {
    /// Checks curve parameters against the embedding dimension, in the order
    /// dimensions, bit depth, then dimension count against the embedding.
    pub fn check_params(dims: u8, bits_per_dim: u8, embedding_dim: usize) -> (r: Result<
        (),
        ElidError,
    >)
        ensures
            r is Ok <==> curve_params_valid(dims, bits_per_dim, embedding_dim),
            r matches Err(e) ==> if dims == 0 || dims > 32 {
                e == ElidError::InvalidDimension { got: dims as usize, expected_range: (1, 32) }
            } else if bits_per_dim == 0 || bits_per_dim > 16 {
                e == ElidError::InvalidDimension {
                    got: bits_per_dim as usize,
                    expected_range: (1, 16),
                }
            } else {
                e == ElidError::InvalidDimension {
                    got: dims as usize,
                    expected_range: (1, embedding_dim),
                }
            },
    {
        if dims == 0 || dims > 32 {
            return Err(ElidError::InvalidDimension { got: dims as usize, expected_range: (1, 32) });
        }
        if bits_per_dim == 0 || bits_per_dim > 16 {
            return Err(
                ElidError::InvalidDimension { got: bits_per_dim as usize, expected_range: (1, 16) },
            );
        }
        if (dims as usize) > embedding_dim {
            return Err(
                ElidError::InvalidDimension { got: dims as usize, expected_range: (1, embedding_dim) },
            );
        }
        Ok(())
    }

    /// Coordinates made of already-quantized values.
    pub fn from_levels(coords: Vec<u16>, bits_per_dim: u8) -> (r: Self)
        ensures
            r@ == (coords@, bits_per_dim),
    {
        QuantizedCoords { coords, bits: bits_per_dim }
    }

    /// Coordinate values.
    #[must_use]
    pub fn as_slice(&self) -> (r: &[u16])
        ensures
            r@ == self@.0,
    {
        self.coords.as_slice()
    }

    /// Bits per dimension.
    #[must_use]
    pub fn bits_per_dim(&self) -> (r: u8)
        ensures
            r == self@.1,
    {
        self.bits
    }

    /// Number of coordinates.
    #[must_use]
    pub fn len(&self) -> (r: usize)
        ensures
            r == self@.0.len(),
    {
        self.coords.len()
    }

    /// Whether there are no coordinates.
    #[must_use]
    pub fn is_empty(&self) -> (r: bool)
        ensures
            r <==> self@.0.len() == 0,
    {
        self.coords.len() == 0
    }
}

/// Checks an embedding's dimension count: it must be 64-2048.
pub fn check_embedding_dims(len: usize) -> (r: Result<(), ElidError>)
    ensures
        r is Ok <==> 64 <= len <= 2048,
        r matches Err(e) ==> e == (ElidError::InvalidDimension { got: len, expected_range: (64, 2048) }),
{
    if len < 64 || len > 2048 {
        return Err(ElidError::InvalidDimension { got: len, expected_range: (64, 2048) });
    }
    Ok(())
}

} // verus!
