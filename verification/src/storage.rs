//! The on-disk format of a user's enrolled face templates.
//!
//! `embeddings.bin` is little-endian: a `u32` version (1), a `u32` count, a
//! `u32` dimension (512), then `count * 512` IEEE-754 single-precision
//! values. The store keeps each value as its 32-bit pattern; reading and
//! writing the file, and doing arithmetic on the values, happens outside.
use vstd::prelude::*;
use crate::text::{chars_of, string_of};
use crate::user::{lemma_valid_name_chars, username_check, validate_username, UsernameError};
use vstd::string::StringSliceAdditionalSpecFns;
use byteorder::{ByteOrder, LittleEndian};

verus! {

pub const EMBEDDING_VERSION: u32 = 1;

pub const EMBEDDING_DIM: u32 = 512;

/// Upper bound on stored embeddings per user. `count` is read off disk and
/// sizes an allocation, so it is bounded before use.
pub const MAX_EMBEDDINGS: u32 = 256;

/// Bytes one embedding takes on disk.
pub const EMBEDDING_BYTES: usize = 2048;

/// Bytes of the header.
pub const HEADER_BYTES: usize = 12;

/// A user's templates. Each component is the IEEE-754 bit pattern of an
/// `f32`.
#[derive(Debug, Clone, Default)]
pub struct EmbeddingStore {
    pub embeddings: Vec<Vec<u32>>,
}

/// Why a template file or a store was refused.
#[derive(Debug, Clone, Copy, PartialEq, Eq, Structural)]
pub enum StoreError {
    /// The file ends before a field it must hold.
    Truncated,
    /// Wrong version, dimension or count, a non-finite value, or trailing
    /// bytes.
    InvalidFormat,
    /// More embeddings than `MAX_EMBEDDINGS`.
    TooManyEmbeddings { count: usize },
    /// An embedding of another length than `EMBEDDING_DIM`.
    WrongDimension { len: usize },
}

pub open spec fn view_store(es: Seq<Vec<u32>>) -> Seq<Seq<u32>> {
    es.map_values(|e: Vec<u32>| e@)
}

impl EmbeddingStore {
    pub open spec fn spec_embeddings(&self) -> Seq<Seq<u32>> {
        view_store(self.embeddings@)
    }
}

// ---------------------------------------------------------------------------
// Encoding
// ---------------------------------------------------------------------------
/// The little-endian `u32` stored at `b[off..off + 4]`.
pub open spec fn le32(b: Seq<u8>, off: int) -> int {
    b[off] + 256 * b[off + 1] + 65536 * b[off + 2] + 16777216 * b[off + 3]
}

/// The four little-endian bytes of `x`.
pub open spec fn u32_bytes(x: u32) -> Seq<u8> {
    seq![(x % 256) as u8, ((x / 256) % 256) as u8, ((x / 65536) % 256) as u8, (x / 16777216) as u8]
}

/// An `f32` bit pattern whose exponent field is not all ones: neither an
/// infinity nor a NaN.
pub open spec fn is_finite_bits(x: u32) -> bool {
    (x / 8388608) % 256 != 255
}

pub open spec fn values_bytes(v: Seq<u32>) -> Seq<u8>
    decreases v.len(),
{
    if v.len() == 0 {
        Seq::empty()
    } else {
        values_bytes(v.drop_last()) + u32_bytes(v.last())
    }
}

pub open spec fn body_bytes(es: Seq<Seq<u32>>) -> Seq<u8>
    decreases es.len(),
{
    if es.len() == 0 {
        Seq::empty()
    } else {
        body_bytes(es.drop_last()) + values_bytes(es.last())
    }
}

/// The file that holds the embeddings `es`.
pub open spec fn encoding(es: Seq<Seq<u32>>) -> Seq<u8> {
    u32_bytes(EMBEDDING_VERSION) + u32_bytes(es.len() as u32) + u32_bytes(EMBEDDING_DIM)
        + body_bytes(es)
}

/// A store that `save` writes and `load` reads back: at most
/// `MAX_EMBEDDINGS` embeddings of `EMBEDDING_DIM` finite values.
pub open spec fn store_well_formed(es: Seq<Seq<u32>>) -> bool {
    &&& es.len() <= MAX_EMBEDDINGS
    &&& forall|k: int| 0 <= k < es.len() ==> (#[trigger] es[k]).len() == EMBEDDING_DIM
    &&& forall|k: int, j: int|
        0 <= k < es.len() && 0 <= j < es[k].len() ==> is_finite_bits(#[trigger] es[k][j])
}

/// The first reason `encode` refuses a store, if any.
pub open spec fn encode_error(es: Seq<Seq<u32>>) -> Option<StoreError> {
    if es.len() > MAX_EMBEDDINGS {
        Some(StoreError::TooManyEmbeddings { count: es.len() as usize })
    } else if exists|k: int| 0 <= k < es.len() && (#[trigger] es[k]).len() != EMBEDDING_DIM {
        let k = first_wrong_dim(es, 0);
        Some(StoreError::WrongDimension { len: es[k].len() as usize })
    } else {
        None
    }
}

/// The first index at or after `k` whose embedding has the wrong length.
pub open spec fn first_wrong_dim(es: Seq<Seq<u32>>, k: int) -> int
    decreases es.len() - k,
{
    if k >= es.len() {
        es.len() as int
    } else if es[k].len() != EMBEDDING_DIM {
        k
    } else {
        first_wrong_dim(es, k + 1)
    }
}

// ---------------------------------------------------------------------------
// Decoding
// ---------------------------------------------------------------------------
/// Embedding `k` as it lies in the body of `b`.
pub open spec fn embedding_at(b: Seq<u8>, k: int) -> Seq<u32> {
    Seq::new(
        EMBEDDING_DIM as nat,
        |j: int| le32(b, HEADER_BYTES + EMBEDDING_BYTES * k + 4 * j) as u32,
    )
}

pub open spec fn all_finite(v: Seq<u32>) -> bool {
    forall|j: int| 0 <= j < v.len() ==> is_finite_bits(#[trigger] v[j])
}

/// Reading embeddings `k..count` from `b`, in file order.
pub open spec fn decode_body(b: Seq<u8>, count: int, k: int) -> Result<Seq<Seq<u32>>, StoreError>
    decreases count - k,
{
    if k >= count {
        if b.len() > HEADER_BYTES + EMBEDDING_BYTES * count {
            Err(StoreError::InvalidFormat)
        } else {
            Ok(Seq::empty())
        }
    } else if b.len() < HEADER_BYTES + EMBEDDING_BYTES * (k + 1) {
        Err(StoreError::Truncated)
    } else if !all_finite(embedding_at(b, k)) {
        Err(StoreError::InvalidFormat)
    } else {
        match decode_body(b, count, k + 1) {
            Ok(rest) => Ok(seq![embedding_at(b, k)] + rest),
            Err(e) => Err(e),
        }
    }
}

/// What reading a template file gives: the header checks in file order,
/// then each embedding, then no trailing bytes.
pub open spec fn decode_spec(b: Seq<u8>) -> Result<Seq<Seq<u32>>, StoreError> {
    if b.len() < 4 {
        Err(StoreError::Truncated)
    } else if le32(b, 0) != EMBEDDING_VERSION {
        Err(StoreError::InvalidFormat)
    } else if b.len() < HEADER_BYTES {
        Err(StoreError::Truncated)
    } else if le32(b, 8) != EMBEDDING_DIM || le32(b, 4) > MAX_EMBEDDINGS {
        Err(StoreError::InvalidFormat)
    } else {
        decode_body(b, le32(b, 4), 0)
    }
}

/// `byteorder`'s `LittleEndian::read_u32` on the bytes from `off`: it reads
/// the first four of them as a little-endian number (and panics on fewer
/// than four, which `requires` rules out).
#[verifier::external_body]
fn read_le32(b: &[u8], off: usize) -> (x: u32)
    requires
        off + 4 <= b@.len(),
    ensures
        x == le32(b@, off as int),
{
    LittleEndian::read_u32(&b[off..])
}

/// `byteorder`'s `LittleEndian::write_u32` into a four-byte buffer: the
/// buffer then holds the little-endian bytes of `x`.
#[verifier::external_body]
fn le32_bytes(x: u32) -> (r: Vec<u8>)
    ensures
        r@ == u32_bytes(x),
{
    let mut buf = [0u8; 4];
    LittleEndian::write_u32(&mut buf, x);
    buf.to_vec()
}

fn push_le32(out: &mut Vec<u8>, x: u32)
    ensures
        final(out)@ == old(out)@ + u32_bytes(x),
{
    let b = le32_bytes(x);
    let mut i: usize = 0;
    while i < b.len()
        invariant
            i <= b@.len(),
            b@ == u32_bytes(x),
            out@ == old(out)@ + b@.subrange(0, i as int),
        decreases b@.len() - i,
    {
        out.push(b[i]);
        assert(out@ =~= old(out)@ + b@.subrange(0, i + 1));
        i += 1;
    }
    assert(b@.subrange(0, b@.len() as int) =~= b@);
}

fn is_finite_exec(x: u32) -> (r: bool)
    ensures
        r == is_finite_bits(x),
{
    (x / 8388608) % 256 != 255
}

impl EmbeddingStore {
    /// An empty store.
    pub fn new() -> (s: Self)
        ensures
            s.spec_embeddings() == Seq::<Seq<u32>>::empty(),
    {
        let s = EmbeddingStore { embeddings: Vec::new() };
        assert(s.spec_embeddings() =~= Seq::<Seq<u32>>::empty());
        s
    }

    /// Append one embedding.
    pub fn add_embedding(&mut self, embedding: Vec<u32>)
        ensures
            final(self).spec_embeddings() == old(self).spec_embeddings().push(embedding@),
    {
        self.embeddings.push(embedding);
        assert(self.spec_embeddings() =~= old(self).spec_embeddings().push(embedding@));
    }

    /// The contents of `embeddings.bin` for this store.
    ///
    /// Refused when there are more than `MAX_EMBEDDINGS` embeddings, or when
    /// one does not have `EMBEDDING_DIM` values (the first such one is
    /// reported).
    pub fn encode(&self) -> (r: Result<Vec<u8>, StoreError>)
        ensures
            match encode_error(self.spec_embeddings()) {
                Some(e) => r == Err::<Vec<u8>, StoreError>(e),
                None => r matches Ok(b) && b@ == encoding(self.spec_embeddings()),
            },
    {
        let ghost es = self.spec_embeddings();
        let n = self.embeddings.len();
        if n > MAX_EMBEDDINGS as usize {
            return Err(StoreError::TooManyEmbeddings { count: n });
        }
        let mut k: usize = 0;
        while k < n
            invariant
                k <= n == es.len(),
                n <= MAX_EMBEDDINGS,
                es == self.spec_embeddings(),
                forall|i: int| 0 <= i < k ==> (#[trigger] es[i]).len() == EMBEDDING_DIM,
                first_wrong_dim(es, 0) == first_wrong_dim(es, k as int),
            decreases n - k,
        {
            assert(es[k as int] == self.embeddings@[k as int]@);
            if self.embeddings[k].len() != EMBEDDING_DIM as usize {
                assert(first_wrong_dim(es, k as int) == k);
                assert(es[k as int].len() != EMBEDDING_DIM);
                return Err(StoreError::WrongDimension { len: self.embeddings[k].len() });
            }
            k += 1;
        }
        assert(!(exists|i: int| 0 <= i < es.len() && (#[trigger] es[i]).len() != EMBEDDING_DIM));
        let mut out: Vec<u8> = Vec::new();
        push_le32(&mut out, EMBEDDING_VERSION);
        push_le32(&mut out, n as u32);
        push_le32(&mut out, EMBEDDING_DIM);
        let ghost header = out@;
        let mut k: usize = 0;
        assert(es.subrange(0, 0) =~= Seq::<Seq<u32>>::empty());
        while k < n
            invariant
                k <= n == es.len(),
                es == self.spec_embeddings(),
                out@ == header + body_bytes(es.subrange(0, k as int)),
            decreases n - k,
        {
            let e = &self.embeddings[k];
            assert(e@ == es[k as int]);
            let ghost before = out@;
            let mut j: usize = 0;
            assert(e@.subrange(0, 0) =~= Seq::<u32>::empty());
            while j < e.len()
                invariant
                    j <= e@.len(),
                    out@ == before + values_bytes(e@.subrange(0, j as int)),
                decreases e@.len() - j,
            {
                push_le32(&mut out, e[j]);
                assert(e@.subrange(0, j + 1).drop_last() =~= e@.subrange(0, j as int));
                assert(out@ =~= before + values_bytes(e@.subrange(0, j + 1)));
                j += 1;
            }
            assert(e@.subrange(0, e@.len() as int) =~= e@);
            assert(es.subrange(0, k + 1).drop_last() =~= es.subrange(0, k as int));
            assert(out@ =~= header + body_bytes(es.subrange(0, k + 1)));
            k += 1;
        }
        assert(es.subrange(0, n as int) =~= es);
        assert(out@ =~= encoding(es));
        Ok(out)
    }

    /// Read a store from the contents of `embeddings.bin`.
    ///
    /// In file order: the version must be 1, the dimension 512 and the count
    /// at most `MAX_EMBEDDINGS`; every embedding must be present and finite;
    /// nothing may follow the last one. A file that ends early is
    /// `Truncated`; any other refusal is `InvalidFormat`.
    pub fn decode(bytes: &[u8]) -> (r: Result<EmbeddingStore, StoreError>)
        ensures
            match decode_spec(bytes@) {
                Ok(es) => r matches Ok(s) && s.spec_embeddings() == es,
                Err(e) => r == Err::<EmbeddingStore, StoreError>(e),
            },
    {
        let b = bytes;
        if b.len() < 4 {
            return Err(StoreError::Truncated);
        }
        if read_le32(b, 0) != EMBEDDING_VERSION {
            return Err(StoreError::InvalidFormat);
        }
        if b.len() < HEADER_BYTES {
            return Err(StoreError::Truncated);
        }
        let count = read_le32(b, 4);
        let dim = read_le32(b, 8);
        if dim != EMBEDDING_DIM || count > MAX_EMBEDDINGS {
            return Err(StoreError::InvalidFormat);
        }
        let count = count as usize;
        let mut embeddings: Vec<Vec<u32>> = Vec::new();
        let mut k: usize = 0;
        assert(view_store(embeddings@) =~= Seq::<Seq<u32>>::empty());
        while k < count
            invariant
                k <= count <= MAX_EMBEDDINGS,
                b@ == bytes@,
                count == le32(b@, 4),
                decode_spec(b@) == decode_body(b@, count as int, 0),
                view_store(embeddings@).len() == k,
                decode_body(b@, count as int, 0) == (match decode_body(b@, count as int, k as int) {
                    Ok(rest) => Ok(view_store(embeddings@) + rest),
                    Err(e) => Err(e),
                }),
            decreases count - k,
        {
            if b.len() < HEADER_BYTES + EMBEDDING_BYTES * (k + 1) {
                assert(decode_body(b@, count as int, k as int) == Err::<Seq<Seq<u32>>, StoreError>(
                    StoreError::Truncated,
                ));
                assert(decode_spec(b@) == Err::<Seq<Seq<u32>>, StoreError>(StoreError::Truncated));
                return Err(StoreError::Truncated);
            }
            let base = HEADER_BYTES + EMBEDDING_BYTES * k;
            let mut e: Vec<u32> = Vec::new();
            let mut j: usize = 0;
            let mut finite = true;
            while j < EMBEDDING_DIM as usize
                invariant
                    j <= EMBEDDING_DIM,
                    k < count <= MAX_EMBEDDINGS,
                    base == HEADER_BYTES + EMBEDDING_BYTES * k,
                    base + EMBEDDING_BYTES <= b@.len(),
                    e@ == embedding_at(b@, k as int).subrange(0, j as int),
                    finite == all_finite(e@),
                decreases EMBEDDING_DIM - j,
            {
                let x = read_le32(b, base + 4 * j);
                let ghost old_e = e@;
                e.push(x);
                finite = finite && is_finite_exec(x);
                assert(e@ =~= embedding_at(b@, k as int).subrange(0, j + 1));
                assert(e@ == old_e.push(x));
                assert(all_finite(e@) == (all_finite(old_e) && is_finite_bits(x))) by {
                    if all_finite(old_e) && is_finite_bits(x) {
                        assert forall|i: int| 0 <= i < e@.len() implies is_finite_bits(
                            #[trigger] e@[i],
                        ) by {
                            if i < old_e.len() {
                                assert(e@[i] == old_e[i]);
                            }
                        }
                    }
                    if all_finite(e@) {
                        assert(is_finite_bits(e@[j as int]));
                        assert forall|i: int| 0 <= i < old_e.len() implies is_finite_bits(
                            #[trigger] old_e[i],
                        ) by {
                            assert(e@[i] == old_e[i]);
                        }
                    }
                }
                j += 1;
            }
            assert(e@ =~= embedding_at(b@, k as int));
            if !finite {
                assert(decode_body(b@, count as int, k as int) == Err::<Seq<Seq<u32>>, StoreError>(
                    StoreError::InvalidFormat,
                ));
                assert(decode_spec(b@) == Err::<Seq<Seq<u32>>, StoreError>(StoreError::InvalidFormat));
                return Err(StoreError::InvalidFormat);
            }
            let ghost before = view_store(embeddings@);
            embeddings.push(e);
            assert(view_store(embeddings@) =~= before.push(embedding_at(b@, k as int)));
            proof {
                match decode_body(b@, count as int, k + 1) {
                    Ok(rest) => {
                        assert(before + (seq![embedding_at(b@, k as int)] + rest) =~= before.push(
                            embedding_at(b@, k as int),
                        ) + rest);
                    },
                    Err(_) => {},
                }
            }
            k += 1;
        }
        if b.len() > HEADER_BYTES + EMBEDDING_BYTES * count {
            return Err(StoreError::InvalidFormat);
        }
        assert(view_store(embeddings@) + Seq::<Seq<u32>>::empty() =~= view_store(embeddings@));
        Ok(EmbeddingStore { embeddings })
    }
}

// ---------------------------------------------------------------------------
// Laws of the format
// ---------------------------------------------------------------------------
proof fn lemma_le32_of_u32_bytes(x: u32)
    ensures
        u32_bytes(x).len() == 4,
        le32(u32_bytes(x), 0) == x,
{
    assert((x % 256) + 256 * ((x / 256) % 256) + 65536 * ((x / 65536) % 256) + 16777216 * (x
        / 16777216) == x) by (bit_vector);
}

proof fn lemma_u32_bytes_of_le32(b: Seq<u8>, off: int)
    requires
        0 <= off && off + 4 <= b.len(),
    ensures
        u32_bytes(le32(b, off) as u32) == b.subrange(off, off + 4),
{
    let b0 = b[off] as u32;
    let b1 = b[off + 1] as u32;
    let b2 = b[off + 2] as u32;
    let b3 = b[off + 3] as u32;
    assert(b0 < 256 && b1 < 256 && b2 < 256 && b3 < 256);
    let x: u32 = (b0 + 256 * b1 + 65536 * b2 + 16777216 * b3) as u32;
    assert(x % 256 == b0 && (x / 256) % 256 == b1 && (x / 65536) % 256 == b2 && x / 16777216
        == b3) by (bit_vector)
        requires
            b0 < 256 && b1 < 256 && b2 < 256 && b3 < 256,
            x == b0 + 256 * b1 + 65536 * b2 + 16777216 * b3,
    ;
    assert(u32_bytes(le32(b, off) as u32) =~= b.subrange(off, off + 4));
}

proof fn lemma_values_bytes(v: Seq<u32>)
    ensures
        values_bytes(v).len() == 4 * v.len(),
        forall|j: int, t: int|
            0 <= j < v.len() && 0 <= t < 4 ==> #[trigger] values_bytes(v)[4 * j + t] == u32_bytes(
                v[j],
            )[t],
    decreases v.len(),
{
    if v.len() > 0 {
        let init = v.drop_last();
        lemma_values_bytes(init);
        lemma_le32_of_u32_bytes(v.last());
        assert forall|j: int, t: int| 0 <= j < v.len() && 0 <= t < 4 implies #[trigger] values_bytes(
            v,
        )[4 * j + t] == u32_bytes(v[j])[t] by {
            if j < init.len() {
                assert(values_bytes(init)[4 * j + t] == u32_bytes(init[j])[t]);
            }
        }
    }
}

proof fn lemma_body_bytes(es: Seq<Seq<u32>>)
    requires
        forall|k: int| 0 <= k < es.len() ==> (#[trigger] es[k]).len() == EMBEDDING_DIM,
    ensures
        body_bytes(es).len() == EMBEDDING_BYTES * es.len(),
        forall|k: int, i: int|
            0 <= k < es.len() && 0 <= i < EMBEDDING_BYTES ==> #[trigger] body_bytes(es)[EMBEDDING_BYTES
                * k + i] == values_bytes(es[k])[i],
    decreases es.len(),
{
    if es.len() > 0 {
        let init = es.drop_last();
        assert forall|k: int| 0 <= k < init.len() implies (#[trigger] init[k]).len()
            == EMBEDDING_DIM by {
            assert(init[k] == es[k]);
        }
        lemma_body_bytes(init);
        lemma_values_bytes(es.last());
        assert forall|k: int, i: int|
            0 <= k < es.len() && 0 <= i < EMBEDDING_BYTES implies #[trigger] body_bytes(
            es,
        )[EMBEDDING_BYTES * k + i] == values_bytes(es[k])[i] by {
            if k < init.len() {
                assert(body_bytes(init)[EMBEDDING_BYTES * k + i] == values_bytes(init[k])[i]);
            }
        }
    }
}

/// Byte `t` of value `j` of embedding `k` in the file holding `es`.
proof fn lemma_encoding_layout(es: Seq<Seq<u32>>)
    requires
        es.len() <= MAX_EMBEDDINGS,
        forall|k: int| 0 <= k < es.len() ==> (#[trigger] es[k]).len() == EMBEDDING_DIM,
    ensures
        encoding(es).len() == HEADER_BYTES + EMBEDDING_BYTES * es.len(),
        le32(encoding(es), 0) == EMBEDDING_VERSION,
        le32(encoding(es), 4) == es.len(),
        le32(encoding(es), 8) == EMBEDDING_DIM,
        forall|k: int| 0 <= k < es.len() ==> #[trigger] embedding_at(encoding(es), k) == es[k],
{
    let enc = encoding(es);
    lemma_body_bytes(es);
    lemma_le32_of_u32_bytes(EMBEDDING_VERSION);
    lemma_le32_of_u32_bytes(es.len() as u32);
    lemma_le32_of_u32_bytes(EMBEDDING_DIM);
    assert forall|k: int| 0 <= k < es.len() implies #[trigger] embedding_at(enc, k) == es[k] by {
        lemma_values_bytes(es[k]);
        assert forall|j: int| 0 <= j < EMBEDDING_DIM implies embedding_at(enc, k)[j] == es[k][j] by {
            let off = HEADER_BYTES + EMBEDDING_BYTES * k + 4 * j;
            assert forall|t: int| 0 <= t < 4 implies enc[off + t] == u32_bytes(es[k][j])[t] by {
                assert(enc[off + t] == body_bytes(es)[EMBEDDING_BYTES * k + (4 * j + t)]);
                assert(values_bytes(es[k])[4 * j + t] == u32_bytes(es[k][j])[t]);
            }
            lemma_le32_of_u32_bytes(es[k][j]);
        }
        assert(embedding_at(enc, k) =~= es[k]);
    }
}

proof fn lemma_decode_body_of_encoding(es: Seq<Seq<u32>>, k: int)
    requires
        store_well_formed(es),
        0 <= k <= es.len(),
    ensures
        decode_body(encoding(es), es.len() as int, k) == Ok::<Seq<Seq<u32>>, StoreError>(
            es.subrange(k, es.len() as int),
        ),
    decreases es.len() - k,
{
    lemma_encoding_layout(es);
    if k == es.len() {
        assert(es.subrange(k, es.len() as int) =~= Seq::<Seq<u32>>::empty());
    } else {
        lemma_decode_body_of_encoding(es, k + 1);
        assert(embedding_at(encoding(es), k) == es[k]);
        assert(all_finite(es[k]));
        assert(seq![es[k]] + es.subrange(k + 1, es.len() as int) =~= es.subrange(
            k,
            es.len() as int,
        ));
    }
}

/// Reading back what `encode` wrote gives the store that was written, for
/// every store `encode` accepts whose values are all finite.
pub proof fn lemma_encode_decode_round_trip(es: Seq<Seq<u32>>)
    requires
        store_well_formed(es),
    ensures
        decode_spec(encoding(es)) == Ok::<Seq<Seq<u32>>, StoreError>(es),
        encode_error(es) is None,
{
    lemma_encoding_layout(es);
    lemma_decode_body_of_encoding(es, 0);
    assert(es.subrange(0, es.len() as int) =~= es);
}

proof fn lemma_decode_body_ok(b: Seq<u8>, count: int, k: int)
    requires
        0 <= k <= count,
        b.len() >= HEADER_BYTES + EMBEDDING_BYTES * k,
        decode_body(b, count, k) is Ok,
    ensures
        ({
            let es = decode_body(b, count, k)->Ok_0;
            &&& es.len() == count - k
            &&& b.len() == HEADER_BYTES + EMBEDDING_BYTES * count
            &&& forall|i: int| 0 <= i < es.len() ==> #[trigger] es[i] == embedding_at(b, k + i)
            &&& forall|i: int| 0 <= i < es.len() ==> all_finite(#[trigger] es[i])
        }),
    decreases count - k,
{
    if k < count {
        lemma_decode_body_ok(b, count, k + 1);
        let rest = decode_body(b, count, k + 1)->Ok_0;
        let es = decode_body(b, count, k)->Ok_0;
        assert(es == seq![embedding_at(b, k)] + rest);
        assert forall|i: int| 0 <= i < es.len() implies #[trigger] es[i] == embedding_at(b, k + i)
            && all_finite(es[i]) by {
            if i > 0 {
                assert(es[i] == rest[i - 1]);
            }
        }
    }
}

/// A file that reads successfully is exactly the file `encode` writes for
/// what it read: nothing else, no trailing bytes, and every value finite.
pub proof fn lemma_decoded_file_is_canonical(b: Seq<u8>)
    requires
        decode_spec(b) is Ok,
    ensures
        store_well_formed(decode_spec(b)->Ok_0),
        encoding(decode_spec(b)->Ok_0) == b,
{
    let count = le32(b, 4);
    lemma_decode_body_ok(b, count, 0);
    let es = decode_spec(b)->Ok_0;
    assert forall|k: int| 0 <= k < es.len() implies (#[trigger] es[k]).len() == EMBEDDING_DIM by {
        assert(es[k] == embedding_at(b, k));
    }
    assert forall|k: int, j: int| 0 <= k < es.len() && 0 <= j < es[k].len() implies is_finite_bits(
        #[trigger] es[k][j],
    ) by {
        assert(all_finite(es[k]));
    }
    lemma_encoding_layout(es);
    let enc = encoding(es);
    assert(es.len() as u32 == count);
    lemma_u32_bytes_of_le32(b, 0);
    lemma_u32_bytes_of_le32(b, 4);
    lemma_u32_bytes_of_le32(b, 8);
    lemma_u32_bytes_of_le32(enc, 0);
    lemma_u32_bytes_of_le32(enc, 4);
    lemma_u32_bytes_of_le32(enc, 8);
    assert forall|i: int| 0 <= i < b.len() implies enc[i] == b[i] by {
        if i < 4 {
            assert(b.subrange(0, 4)[i] == b[i] && enc.subrange(0, 4)[i] == enc[i]);
        } else if i < 8 {
            assert(b.subrange(4, 8)[i - 4] == b[i] && enc.subrange(4, 8)[i - 4] == enc[i]);
        } else if i < 12 {
            assert(b.subrange(8, 12)[i - 8] == b[i] && enc.subrange(8, 12)[i - 8] == enc[i]);
        } else {
            let r = i - HEADER_BYTES;
            let k = r / (EMBEDDING_BYTES as int);
            let q = r % (EMBEDDING_BYTES as int);
            let j = q / 4;
            let t = q % 4;
            assert(0 <= k < es.len());
            assert(i == HEADER_BYTES + EMBEDDING_BYTES * k + 4 * j + t);
            let off = HEADER_BYTES + EMBEDDING_BYTES * k + 4 * j;
            assert(embedding_at(b, k)[j] == es[k][j]);
            assert(embedding_at(enc, k)[j] == es[k][j]);
            lemma_u32_bytes_of_le32(b, off);
            lemma_u32_bytes_of_le32(enc, off);
            assert(b.subrange(off, off + 4)[t] == b[i]);
            assert(enc.subrange(off, off + 4)[t] == enc[i]);
        }
    }
    assert(enc =~= b);
}

// ---------------------------------------------------------------------------
// Paths
// ---------------------------------------------------------------------------
/// `Path::join` of a relative single-component name: a `/` is added between
/// the two unless `base` is empty or already ends with one.
pub open spec fn join_path(base: Seq<char>, name: Seq<char>) -> Seq<char> {
    if base.len() == 0 {
        name
    } else if base.last() == '/' {
        base + name
    } else {
        base.push('/') + name
    }
}

/// `base.join(name)` for a relative `name`.
pub fn join(base: &str, name: &str) -> (r: String)
    ensures
        r@ == join_path(base@, name@),
{
    let mut v = chars_of(base);
    let n = chars_of(name);
    if v.len() > 0 && v[v.len() - 1] != '/' {
        v.push('/');
    }
    let ghost pre = v@;
    let mut i: usize = 0;
    while i < n.len()
        invariant
            i <= n@.len(),
            v@ == pre + n@.subrange(0, i as int),
        decreases n@.len() - i,
    {
        v.push(n[i]);
        assert(v@ =~= pre + n@.subrange(0, i + 1));
        i += 1;
    }
    assert(n@.subrange(0, n@.len() as int) =~= n@);
    string_of(v.as_slice())
}

/// The per-user store directory, `embeddings_dir/user`. The username is
/// validated first, so the result never leaves `embeddings_dir`.
pub fn user_store_dir(user: &str, embeddings_dir: &str) -> (r: Result<String, UsernameError>)
    ensures
        match username_check(user@, user.spec_bytes()) {
            Some(e) => r == Err::<String, UsernameError>(e),
            None => r matches Ok(p) && p@ == join_path(embeddings_dir@, user@),
        },
{
    let u = validate_username(user)?;
    Ok(join(embeddings_dir, u))
}

/// A stored value is refused exactly when it is an infinity or a NaN, that
/// is when the eight exponent bits of its IEEE-754 single-precision pattern
/// are all ones. The sign bit plays no part: a negative value is kept
/// exactly when its magnitude is.
pub proof fn lemma_finite_bits_is_ieee_finite(x: u32)
    ensures
        is_finite_bits(x) <==> (x & 0x7f80_0000u32) != 0x7f80_0000u32,
        is_finite_bits(x) == is_finite_bits(x ^ 0x8000_0000u32),
{
    assert(is_finite_bits(x) <==> (x & 0x7f80_0000u32) != 0x7f80_0000u32) by (bit_vector);
    assert(is_finite_bits(x) == is_finite_bits(x ^ 0x8000_0000u32)) by (bit_vector);
}

/// Every store of at most 256 embeddings of 512 values each, whose values
/// are finite numbers of either sign (the exponent bits not all ones), reads
/// back exactly as it was written.
pub proof fn lemma_finite_stores_read_back(es: Seq<Seq<u32>>)
    requires
        es.len() <= 256,
        forall|k: int| 0 <= k < es.len() ==> (#[trigger] es[k]).len() == 512,
        forall|k: int, j: int|
            0 <= k < es.len() && 0 <= j < es[k].len() ==> (#[trigger] es[k][j] & 0x7f80_0000u32)
                != 0x7f80_0000u32,
    ensures
        decode_spec(encoding(es)) == Ok::<Seq<Seq<u32>>, StoreError>(es),
{
    assert forall|k: int, j: int| 0 <= k < es.len() && 0 <= j < es[k].len() implies is_finite_bits(
        #[trigger] es[k][j],
    ) by {
        lemma_finite_bits_is_ieee_finite(es[k][j]);
    }
    lemma_encode_decode_round_trip(es);
}

/// A user's template directory is exactly one level below the embeddings
/// directory: that directory (with a `/` added unless it is empty or ends
/// in one) followed by the name, and the name is a single plain component,
/// neither `.` nor `..` and without `/` or NUL, so it cannot escape.
pub proof fn lemma_store_dir_is_one_level_below(dir: Seq<char>, user: Seq<char>)
    requires
        username_check(user, vstd::utf8::encode_utf8(user)) is None,
    ensures
        ({
            let p = join_path(dir, user);
            let k = p.len() - user.len();
            &&& p.subrange(0, k) == (if dir.len() == 0 || dir.last() == '/' {
                dir
            } else {
                dir.push('/')
            })
            &&& p.subrange(k, p.len() as int) == user
        }),
        user.len() >= 1,
        user != seq!['.'] && user != seq!['.', '.'],
        forall|i: int| 0 <= i < user.len() ==> #[trigger] user[i] != '/' && user[i] != '\0',
{
    lemma_valid_name_chars(user);
    let p = join_path(dir, user);
    let pre = if dir.len() == 0 || dir.last() == '/' {
        dir
    } else {
        dir.push('/')
    };
    assert(p == pre + user);
    assert((pre + user).subrange(0, pre.len() as int) =~= pre);
    assert((pre + user).subrange(pre.len() as int, p.len() as int) =~= user);
}

} // verus!
