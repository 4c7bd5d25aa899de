//! Embedding models: their error type and where their files are published.
//!
//! Running the models (tokenizing, reading safetensors, ONNX inference) is
//! floating-point work done outside the verified core.

use vstd::prelude::*;

use crate::embeddings::error::{decimal, push_decimal};

verus! {

/// Dimensionality of text embeddings (Model2Vec potion-base-8M).
pub const TEXT_EMBEDDING_DIM: usize = 256;

/// Dimensionality of image embeddings (MobileNetV3-Small classification logits).
pub const IMAGE_EMBEDDING_DIM: usize = 1000;

/// Base URL for model downloads.
pub const MODEL_BASE_URL: &'static str = "https://github.com/ZachHandley/ELID/releases/download";

/// Release version whose model files are downloaded.
pub const MODEL_VERSION: &'static str = "0.1.0";

/// Errors that can occur during model inference.
#[derive(Debug)]
pub enum ModelError {
    /// Model file not found or failed to load
    ModelLoad(String),
    /// Input preprocessing failed
    Preprocessing(String),
    /// Inference failed
    Inference(String),
    /// Output postprocessing failed
    Postprocessing(String),
}

/// The text an error is displayed as.
pub open spec fn model_error_text(e: ModelError) -> Seq<char> {
    match e {
        ModelError::ModelLoad(m) => "Model load error: "@ + m@,
        ModelError::Preprocessing(m) => "Preprocessing error: "@ + m@,
        ModelError::Inference(m) => "Inference error: "@ + m@,
        ModelError::Postprocessing(m) => "Postprocessing error: "@ + m@,
    }
}

impl ModelError {
    /// The error's message: its kind, a colon, then the detail.
    pub fn message(&self) -> (r: String)
        ensures
            r@ == model_error_text(*self),
    {
        let (prefix, detail) = match self {
            ModelError::ModelLoad(m) => ("Model load error: ", m),
            ModelError::Preprocessing(m) => ("Preprocessing error: ", m),
            ModelError::Inference(m) => ("Inference error: ", m),
            ModelError::Postprocessing(m) => ("Postprocessing error: ", m),
        };
        let mut s = String::from_str(prefix);
        s.append(detail.as_str());
        s
    }
}

/// Download URL of a model file under a base URL: `{base}/{filename}`.
pub fn model_url_under(base: &str, filename: &str) -> (r: String)
    ensures
        r@ == base@ + "/"@ + filename@,
{
    let mut s = String::from_str(base);
    s.append("/");
    s.append(filename);
    s
}

/// Download URL of a model file at the current release:
/// `{MODEL_BASE_URL}/v{MODEL_VERSION}/{filename}`.
pub fn model_url(filename: &str) -> (r: String)
    ensures
        r@ == MODEL_BASE_URL@ + "/v"@ + MODEL_VERSION@ + "/"@ + filename@,
{
    let mut s = String::from_str(MODEL_BASE_URL);
    s.append("/v");
    s.append(MODEL_VERSION);
    s.append("/");
    s.append(filename);
    s
}

/// Decimal list `[a, b, ...]` of a sequence of counts, as debug formatting
/// writes it.
pub open spec fn decimal_list(v: Seq<usize>) -> Seq<char>
    decreases v.len(),
{
    if v.len() == 0 {
        "[]"@
    } else {
        decimal_items(v.drop_last()) + decimal(v.last() as nat) + "]"@
    }
}

/// `[` followed by each count and `, `.
pub open spec fn decimal_items(v: Seq<usize>) -> Seq<char>
    decreases v.len(),
{
    if v.len() == 0 {
        "["@
    } else {
        decimal_items(v.drop_last()) + decimal(v.last() as nat) + ", "@
    }
}

fn push_decimal_list(s: &mut String, v: &[usize])
    ensures
        final(s)@ == old(s)@ + decimal_list(v@),
{
    if v.len() == 0 {
        s.append("[]");
        return;
    }
    s.append("[");
    let mut i: usize = 0;
    while i + 1 < v.len()
        invariant
            v@.len() >= 1,
            i + 1 <= v@.len(),
            s@ == old(s)@ + decimal_items(v@.take(i as int)),
        decreases v@.len() - i,
    {
        push_decimal(s, v[i] as u64);
        s.append(", ");
        assert(v@.take(i + 1).drop_last() =~= v@.take(i as int));
        i = i + 1;
    }
    push_decimal(s, v[i] as u64);
    s.append("]");
    assert(v@.take(i as int) =~= v@.drop_last());
}

/// The error an embedding matrix of this shape and data size is rejected
/// with, if any: it must be `[vocab_size, hidden_dim]` holding
/// `vocab_size * hidden_dim` four-byte values.
pub open spec fn matrix_ok(shape: Seq<usize>, hidden_dim: usize, data_len: usize) -> bool {
    shape.len() == 2 && shape[1] == hidden_dim && data_len == shape[0] * hidden_dim * 4
}

/// Checks the shape and byte size of a text model's embedding matrix and
/// returns its vocabulary size.
///
/// Fails with `ModelLoad` for a shape other than `[vocab_size, hidden_dim]`,
/// then for data of the wrong size.
pub fn check_embedding_matrix(shape: &[usize], hidden_dim: usize, data_len: usize) -> (r: Result<
    usize,
    ModelError,
>)
    requires
        shape@.len() == 2 && shape@[1] == hidden_dim ==> shape@[0] * hidden_dim * 4 <= usize::MAX,
    ensures
        r is Ok <==> matrix_ok(shape@, hidden_dim, data_len),
        r matches Ok(n) ==> n == shape@[0],
        r matches Err(e) ==> e matches ModelError::ModelLoad(m) && if !(shape@.len() == 2
            && shape@[1] == hidden_dim) {
            m@ == "Expected embeddings shape [vocab_size, "@ + decimal(hidden_dim as nat)
                + "], got "@ + decimal_list(shape@)
        } else {
            m@ == "Embedding data size mismatch: expected "@ + decimal(
                (shape@[0] * hidden_dim * 4) as nat,
            ) + " bytes, got "@ + decimal(data_len as nat)
        },
{
    if shape.len() != 2 || shape[1] != hidden_dim {
        let mut m = String::from_str("Expected embeddings shape [vocab_size, ");
        push_decimal(&mut m, hidden_dim as u64);
        m.append("], got ");
        push_decimal_list(&mut m, shape);
        return Err(ModelError::ModelLoad(m));
    }
    let vocab_size = shape[0];
    let expected = vocab_size * hidden_dim * 4;
    if data_len != expected {
        let mut m = String::from_str("Embedding data size mismatch: expected ");
        push_decimal(&mut m, expected as u64);
        m.append(" bytes, got ");
        push_decimal(&mut m, data_len as u64);
        return Err(ModelError::ModelLoad(m));
    }
    Ok(vocab_size)
}

/// The token ids below the vocabulary size, in order.
pub open spec fn ids_in_vocab(ids: Seq<u32>, vocab_size: usize) -> Seq<u32> {
    ids.filter(|id: u32| (id as int) < vocab_size)
}

/// Keeps the token ids that index the vocabulary, in order.
///
/// Fails with `Preprocessing` when there are no tokens, or none is in the
/// vocabulary.
pub fn select_token_ids(ids: &[u32], vocab_size: usize) -> (r: Result<Vec<u32>, ModelError>)
    ensures
        r is Ok <==> ids@.len() > 0 && ids_in_vocab(ids@, vocab_size).len() > 0,
        r matches Ok(v) ==> v@ == ids_in_vocab(ids@, vocab_size),
        r matches Err(e) ==> e matches ModelError::Preprocessing(m) && m@ == if ids@.len() == 0 {
            "Tokenization produced no tokens"@
        } else {
            "No valid tokens after filtering"@
        },
{
    if ids.len() == 0 {
        return Err(ModelError::Preprocessing(String::from_str("Tokenization produced no tokens")));
    }
    let mut valid: Vec<u32> = Vec::new();
    let mut i: usize = 0;
    while i < ids.len()
        invariant
            i <= ids@.len(),
            valid@ == ids_in_vocab(ids@.take(i as int), vocab_size),
        decreases ids@.len() - i,
    {
        let id = ids[i];
        proof {
            assert(ids@.take(i + 1).drop_last() =~= ids@.take(i as int));
            reveal(Seq::filter);
        }
        if (id as usize) < vocab_size {
            valid.push(id);
        }
        i = i + 1;
    }
    assert(ids@.take(ids@.len() as int) =~= ids@);
    if valid.len() == 0 {
        return Err(ModelError::Preprocessing(String::from_str("No valid tokens after filtering")));
    }
    Ok(valid)
}

/// Where the centered `size` by `size` crop of a `w` by `h` image starts.
pub fn center_crop_origin(w: u32, h: u32, size: u32) -> (r: (u32, u32))
    ensures
        r.0 == (if w > size { (w - size) / 2 } else { 0 }),
        r.1 == (if h > size { (h - size) / 2 } else { 0 }),
{
    let dx = if w > size {
        w - size
    } else {
        0
    };
    let dy = if h > size {
        h - size
    } else {
        0
    };
    (dx / 2, dy / 2)
}

/// Index of channel `c`, row `y`, column `x` in a channel-major tensor of
/// `size` by `size` planes.
pub fn nchw_index(c: usize, y: usize, x: usize, size: usize) -> (r: usize)
    requires
        c < 3,
        y < size,
        x < size,
        size <= 0x1000,
    ensures
        r == c * (size * size) + y * size + x,
{
    proof {
        assert(size * size <= 0x1000 * 0x1000) by (nonlinear_arith)
            requires
                size <= 0x1000,
        ;
        assert(c * (size * size) + y * size + x < 3 * (size * size)) by (nonlinear_arith)
            requires
                c < 3,
                y < size,
                x < size,
        ;
        assert(c * (size * size) <= 2 * (size * size)) by (nonlinear_arith)
            requires
                c < 3,
        ;
        assert(y * size < size * size) by (nonlinear_arith)
            requires
                y < size,
        ;
    }
    c * (size * size) + y * size + x
}

} // verus!
