use reed_solomon_erasure::galois_8::ReedSolomon;
use reed_solomon_erasure::Error;
use vstd::prelude::*;
use vstd::slice::{slice_subrange, slice_to_vec};

verus! {

/// The failures of the erasure code, one for each of `reed_solomon_erasure::Error`'s.
#[derive(PartialEq, Eq, Structural, Debug, Clone, Copy)]
pub enum ErasureError {
    TooFewShards,
    TooManyShards,
    TooFewDataShards,
    TooManyDataShards,
    TooFewParityShards,
    TooManyParityShards,
    TooFewBufferShards,
    TooManyBufferShards,
    IncorrectShardSize,
    TooFewShardsPresent,
    EmptyShard,
    InvalidShardFlags,
    InvalidIndex,
}

#[verifier::external_type_specification]
#[verifier::external_body]
pub struct ExError(Error);

/// A Reed-Solomon erasure code over GF(2^8), `reed_solomon_erasure::galois_8::ReedSolomon`.
#[verifier::external_body]
pub struct Codec {
    inner: ReedSolomon,
}

/// The number of data shards a code was made with.
pub uninterp spec fn codec_data_shards(c: Codec) -> nat;

/// The number of parity shards a code was made with.
pub uninterp spec fn codec_parity_shards(c: Codec) -> nat;

/// The parity shards that the code computes from equally long data shards.
pub uninterp spec fn rs_parity(data: Seq<Seq<u8>>, parity_shards: nat) -> Seq<Seq<u8>>;

/// The shards that reconstruction with a code of `data_shards` data and `parity_shards` parity
/// shards makes of `shards`, some of them missing.
pub uninterp spec fn rs_reconstructed(
    shards: Seq<Option<Seq<u8>>>,
    data_shards: nat,
    parity_shards: nat,
) -> Seq<Seq<u8>>;

/// The shards of an encoding: the data shards, then their parity shards.
pub open spec fn rs_encoded(data: Seq<Seq<u8>>, parity_shards: nat) -> Seq<Seq<u8>> {
    data + rs_parity(data, parity_shards)
}

/// Shards as values.
pub open spec fn shards_view(shards: Seq<Vec<u8>>) -> Seq<Seq<u8>> {
    shards.map_values(|s: Vec<u8>| s@)
}

/// Shards that may be missing, as values.
pub open spec fn option_shards_view(shards: Seq<Option<Vec<u8>>>) -> Seq<Option<Seq<u8>>> {
    shards.map_values(
        |s: Option<Vec<u8>>|
            match s {
                Some(v) => Some(v@),
                None => None,
            },
    )
}

/// How many shards are present.
pub open spec fn present_count(s: Seq<Option<Seq<u8>>>) -> nat
    decreases s.len(),
{
    if s.len() == 0 {
        0
    } else {
        present_count(s.drop_last()) + if s.last() is Some {
            1nat
        } else {
            0nat
        }
    }
}

/// The length of the first present shard, if any.
pub open spec fn present_len(s: Seq<Option<Seq<u8>>>) -> nat
    decreases s.len(),
{
    if s.len() == 0 {
        0
    } else if s[0] is Some {
        s[0]->0.len()
    } else {
        present_len(s.drop_first())
    }
}

/// Scanning the present shards from `i` on, with `len` the length of those before: the first
/// one that is empty, or differs in length, fails the scan.
pub open spec fn shape_error(s: Seq<Option<Seq<u8>>>, i: int, len: Option<nat>) -> Option<
    ErasureError,
>
    decreases s.len() - i,
{
    if i < 0 || i >= s.len() {
        None
    } else {
        match s[i] {
            None => shape_error(s, i + 1, len),
            Some(v) => if v.len() == 0 {
                Some(ErasureError::EmptyShard)
            } else if len is Some && v.len() != len->0 {
                Some(ErasureError::IncorrectShardSize)
            } else {
                shape_error(s, i + 1, Some(v.len()))
            },
        }
    }
}

/// The failure, if any, of reconstructing shards with a code of `d` data and `p` parity
/// shards: a wrong number of shards, an empty or differently long shard, or fewer than `d`
/// present when some are missing.
pub open spec fn reconstruct_error(s: Seq<Option<Seq<u8>>>, d: nat, p: nat) -> Option<
    ErasureError,
> {
    if s.len() < d + p {
        Some(ErasureError::TooFewShards)
    } else if s.len() > d + p {
        Some(ErasureError::TooManyShards)
    } else if shape_error(s, 0, None) is Some {
        shape_error(s, 0, None)
    } else if present_count(s) < s.len() && present_count(s) < d {
        Some(ErasureError::TooFewShardsPresent)
    } else {
        None
    }
}

/// The present shards agree with the encoding of `data`: `d` data shards as long as the
/// present ones.
pub open spec fn consistent(s: Seq<Option<Seq<u8>>>, data: Seq<Seq<u8>>, d: nat, p: nat) -> bool {
    &&& data.len() == d
    &&& rs_encoded(data, p).len() == s.len()
    &&& forall|i: int| 0 <= i < d ==> (#[trigger] data[i]).len() == present_len(s)
    &&& forall|i: int|
        0 <= i < s.len() && (#[trigger] s[i]) is Some ==> s[i]->0 == rs_encoded(data, p)[i]
}

/// The error `reed_solomon_erasure` reported, as a value of the library.
#[verifier::external_body]
fn error_kind(e: Error) -> ErasureError {
    match e {
        Error::TooFewShards => ErasureError::TooFewShards, Error::TooManyShards => ErasureError::TooManyShards,
        Error::TooFewDataShards => ErasureError::TooFewDataShards, Error::TooManyDataShards => ErasureError::TooManyDataShards,
        Error::TooFewParityShards => ErasureError::TooFewParityShards, Error::TooManyParityShards => ErasureError::TooManyParityShards,
        Error::TooFewBufferShards => ErasureError::TooFewBufferShards, Error::TooManyBufferShards => ErasureError::TooManyBufferShards,
        Error::IncorrectShardSize => ErasureError::IncorrectShardSize, Error::TooFewShardsPresent => ErasureError::TooFewShardsPresent,
        Error::EmptyShard => ErasureError::EmptyShard, Error::InvalidShardFlags => ErasureError::InvalidShardFlags,
        Error::InvalidIndex => ErasureError::InvalidIndex,
    }
}

/// `ReedSolomon::new(data_shards, parity_shards)`, unwrapped: it fails on no data shards, no
/// parity shards, or more than 256 shards in all, and otherwise makes a code with these
/// numbers of shards.
#[verifier::external_body]
fn codec_new(data_shards: usize, parity_shards: usize) -> (r: Codec)
    requires
        data_shards > 0,
        parity_shards > 0,
        data_shards + parity_shards <= 256,
    ensures
        codec_data_shards(r) == data_shards,
        codec_parity_shards(r) == parity_shards,
{
    Codec { inner: ReedSolomon::new(data_shards, parity_shards).unwrap() }
}

/// `ReedSolomon::encode`, unwrapped: given as many shards as the code has, all of one non-zero
/// length, it leaves the data shards as they are and overwrites the parity shards, keeping
/// their lengths, with the parity of the data shards, so the shards become their encoding.
#[verifier::external_body]
fn codec_encode(c: &Codec, shards: &mut Vec<Vec<u8>>)
    requires
        old(shards)@.len() == codec_data_shards(*c) + codec_parity_shards(*c),
        old(shards)@[0]@.len() > 0,
        forall|i: int|
            0 <= i < old(shards)@.len() ==> (#[trigger] old(shards)@[i])@.len() == old(
                shards,
            )@[0]@.len(),
    ensures
        final(shards)@.len() == old(shards)@.len(),
        forall|i: int|
            0 <= i < old(shards)@.len() ==> (#[trigger] final(shards)@[i])@.len() == old(
                shards,
            )@[i]@.len(),
        shards_view(final(shards)@) == shards_view(old(shards)@).take(
            codec_data_shards(*c) as int,
        ) + rs_parity(
            shards_view(old(shards)@).take(codec_data_shards(*c) as int),
            codec_parity_shards(*c),
        ),
{
    c.inner.encode(shards).unwrap();
}

/// `ReedSolomon::reconstruct`: it fails as `reconstruct_error` says and then changes
/// nothing; otherwise the shards become `rs_reconstructed` of the shards and the code's
/// numbers of shards: every shard present, as long as the present ones were, those present
/// unchanged, and the missing ones those of the encoding that the present ones agree with,
/// where they agree with one.
#[verifier::external_body]
fn codec_reconstruct(c: &Codec, shards: &mut Vec<Option<Vec<u8>>>) -> (r: Result<(), ErasureError>)
    ensures
        ({
            let s = option_shards_view(old(shards)@);
            let d = codec_data_shards(*c);
            let p = codec_parity_shards(*c);
            let f = option_shards_view(final(shards)@);
            &&& reconstruct_error(s, d, p) matches Some(e) ==> r == Err::<(), ErasureError>(e)
            &&& reconstruct_error(s, d, p) is None ==> r is Ok
            &&& r is Err ==> f == s
            &&& r is Ok ==> {
                &&& f == rs_reconstructed(s, d, p).map_values(|x: Seq<u8>| Some(x))
                &&& f.len() == s.len()
                &&& forall|i: int|
                    0 <= i < f.len() ==> (#[trigger] f[i]) is Some && f[i]->0.len() == present_len(
                        s,
                    )
                &&& forall|i: int| 0 <= i < s.len() && (#[trigger] s[i]) is Some ==> f[i] == s[i]
                &&& forall|data: Seq<Seq<u8>>|
                    #[trigger] consistent(s, data, d, p) ==> f == rs_encoded(data, p).map_values(
                        |x: Seq<u8>| Some(x),
                    )
            }
        }),
{
    c.inner.reconstruct(shards).map_err(error_kind)
}

// ---------------------------------------------------------------------------
// Shards of a message
// ---------------------------------------------------------------------------

/// How many shards of `w` bytes a message of `len` bytes takes.
pub open spec fn shard_count_for(len: nat, w: nat) -> nat {
    ((len + w - 1) / (w as int)) as nat
}

/// The data shards of a message: pieces of `w` bytes, the last one filled up with zeros.
pub open spec fn data_shards_of(data: Seq<u8>, w: nat) -> Seq<Seq<u8>> {
    Seq::new(
        shard_count_for(data.len(), w),
        |i: int| Seq::new(w, |k: int| if i * w + k < data.len() { data[i * w + k] } else { 0u8 }),
    )
}

/// Each shard led by its index.
pub open spec fn indexed_shards(shards: Seq<Seq<u8>>) -> Seq<Seq<u8>> {
    Seq::new(shards.len(), |i: int| seq![i as u8] + shards[i])
}

/// The shards without the index byte that leads each present one.
pub open spec fn strip_index(s: Seq<Option<Seq<u8>>>) -> Seq<Option<Seq<u8>>> {
    s.map_values(
        |o: Option<Seq<u8>>|
            match o {
                Some(v) => Some(v.drop_first()),
                None => None,
            },
    )
}

/// The first `n` bytes of the shards, one after the other (all of them if there are fewer).
pub open spec fn flatten_take(shards: Seq<Seq<u8>>, n: nat) -> Seq<u8> {
    let f = shards.flatten();
    if n < f.len() {
        f.take(n as int)
    } else {
        f
    }
}

/// What recovering a message of `length` bytes from indexed shards `s` gives with a code of
/// `d` data and `p` parity shards: the reconstruction's failure, or as many bytes as were asked
/// for (and the shards hold) of the reconstructed shards, which are those of the encoding the
/// present shards agree with, where they agree with one.
pub open spec fn erasure_outcome(
    s: Seq<Option<Seq<u8>>>,
    d: nat,
    p: nat,
    length: nat,
    r: Result<Seq<u8>, ErasureError>,
) -> bool {
    let t = strip_index(s);
    match reconstruct_error(t, d, p) {
        Some(e) => r == Err::<Seq<u8>, ErasureError>(e),
        None => r matches Ok(v) && v.len() == (if length < t.len() * present_len(t) {
            length
        } else {
            t.len() * present_len(t)
        }) && v == flatten_take(rs_reconstructed(t, d, p), length) && forall|data: Seq<Seq<u8>>|
            #[trigger] consistent(t, data, d, p) ==> v == flatten_take(rs_encoded(data, p), length),
    }
}

/// Shards of one length, one after the other, put each byte where its shard and its place in
/// the shard say.
pub proof fn lemma_flatten_uniform(shards: Seq<Seq<u8>>, w: nat)
    requires
        forall|i: int| 0 <= i < shards.len() ==> (#[trigger] shards[i]).len() == w,
    ensures
        shards.flatten().len() == shards.len() * w,
        forall|i: int, k: int|
            0 <= i < shards.len() && 0 <= k < w ==> shards.flatten()[i * w + k] == #[trigger] shards[i][k],
    decreases shards.len(),
{
    if shards.len() > 0 {
        let init = shards.drop_last();
        lemma_flatten_uniform(init, w);
        assert(init.push(shards.last()) =~= shards);
        init.lemma_flatten_push(shards.last());
        assert(shards.len() * w == init.len() * w + w) by (nonlinear_arith)
            requires
                shards.len() == init.len() + 1,
        ;
        assert forall|i: int, k: int|
            0 <= i < shards.len() && 0 <= k < w implies shards.flatten()[i * w + k]
            == #[trigger] shards[i][k] by {
            if i < init.len() {
                assert(i * w + k < init.len() * w) by (nonlinear_arith)
                    requires
                        i < init.len(),
                        k < w,
                ;
                assert(init[i] == shards[i]);
            } else {
                assert(i * w == init.len() * w) by (nonlinear_arith)
                    requires
                        i == init.len(),
                ;
            }
        }
    }
}

/// The bytes of shards `a` come first when more shards follow.
pub proof fn lemma_flatten_prefix(a: Seq<Seq<u8>>, b: Seq<Seq<u8>>)
    ensures
        (a + b).flatten().len() >= a.flatten().len(),
        (a + b).flatten().take(a.flatten().len() as int) == a.flatten(),
    decreases b.len(),
{
    if b.len() == 0 {
        assert(a + b =~= a);
    } else {
        let b0 = b.drop_last();
        lemma_flatten_prefix(a, b0);
        assert((a + b0).push(b.last()) =~= a + b);
        (a + b0).lemma_flatten_push(b.last());
        assert((a + b).flatten().take(a.flatten().len() as int) =~= a.flatten());
    }
}

// ---------------------------------------------------------------------------
// Adding and removing redundancy
// ---------------------------------------------------------------------------

/// `w` zero bytes.
fn zero_shard(w: usize) -> (r: Vec<u8>)
    ensures
        r@ == Seq::new(w as nat, |k: int| 0u8),
{
    let mut r: Vec<u8> = Vec::with_capacity(w);
    let mut k: usize = 0;
    while k < w
        invariant
            k <= w,
            r@ == Seq::new(k as nat, |j: int| 0u8),
        decreases w - k,
    {
        r.push(0);
        k += 1;
        assert(r@ =~= Seq::new(k as nat, |j: int| 0u8));
    }
    r
}

/// Splits `data` into shards of `padding - 1` bytes (the last filled up with zeros), adds
/// `redundancy_shard_count` parity shards, and leads every shard with its index; returns the
/// shards and the code that made them.
pub fn make_redundancy(data: &[u8], padding: usize, redundancy_shard_count: usize) -> (r: (
    Vec<Vec<u8>>,
    Codec,
))
    requires
        padding >= 2,
        data@.len() > 0,
        redundancy_shard_count > 0,
        shard_count_for(data@.len(), (padding - 1) as nat) + redundancy_shard_count < 256,
    ensures
        ({
            let w = (padding - 1) as nat;
            let d = shard_count_for(data@.len(), w);
            &&& codec_data_shards(r.1) == d
            &&& codec_parity_shards(r.1) == redundancy_shard_count
            &&& r.0@.len() == d + redundancy_shard_count
            &&& shards_view(r.0@) == indexed_shards(
                rs_encoded(data_shards_of(data@, w), redundancy_shard_count as nat),
            )
            &&& forall|i: int| 0 <= i < r.0@.len() ==> (#[trigger] r.0@[i])@.len() == padding
        }),
{
    let w = padding - 1;
    let len = data.len();
    proof {
        crate::tcp_layer::lemma_div_ceil(len as nat, w as nat);
    }
    let d = len / w + if len % w == 0 {
        0
    } else {
        1
    };
    assert(d > 0) by {
        vstd::arithmetic::div_mod::lemma_fundamental_div_mod(len as int, w as int);
        if len % w == 0 && len / w == 0 {
            assert(len == w * (len / w) + len % w);
            assert(w * 0 == 0);
        }
    }
    let ghost chunks = data_shards_of(data@, w as nat);
    let mut shards: Vec<Vec<u8>> = Vec::new();
    let mut i: usize = 0;
    while i < d
        invariant
            i <= d,
            d == chunks.len(),
            w > 0,
            len == data@.len(),
            chunks == data_shards_of(data@, w as nat),
            shards@.len() == i,
            forall|j: int| 0 <= j < i ==> (#[trigger] shards@[j])@ == chunks[j],
        decreases d - i,
    {
        assert(i * w < len) by {
            crate::tcp_layer::lemma_segment_start(len as nat, w as nat, i as nat);
        }
        let start = i * w;
        let end = if w <= len - start {
            start + w
        } else {
            len
        };
        let mut shard = slice_to_vec(slice_subrange(data, start, end));
        while shard.len() < w
            invariant
                start < end <= len,
                end - start <= w,
                end == len || end == start + w,
                start + shard@.len() <= start + w,
                shard@.len() >= end - start,
                forall|k: int|
                    0 <= k < shard@.len() ==> #[trigger] shard@[k] == if start + k < len {
                        data@[start + k]
                    } else {
                        0u8
                    },
            decreases w - shard@.len(),
        {
            shard.push(0);
        }
        assert(shard@ =~= chunks[i as int]);
        shards.push(shard);
        i += 1;
    }
    let mut j: usize = 0;
    while j < redundancy_shard_count
        invariant
            j <= redundancy_shard_count,
            shards@.len() == d + j,
            forall|k: int| 0 <= k < d ==> (#[trigger] shards@[k])@ == chunks[k],
            forall|k: int| d <= k < d + j ==> (#[trigger] shards@[k])@.len() == w,
            forall|k: int| 0 <= k < d ==> (#[trigger] chunks[k]).len() == w,
        decreases redundancy_shard_count - j,
    {
        shards.push(zero_shard(w));
        j += 1;
    }
    let codec = codec_new(d, redundancy_shard_count);
    assert(shards@[0]@.len() == w);
    assert(shards_view(shards@).take(d as int) =~= chunks);
    codec_encode(&codec, &mut shards);
    let ghost encoded = rs_encoded(chunks, redundancy_shard_count as nat);
    assert(shards_view(shards@) == encoded);
    let total = shards.len();
    let mut result: Vec<Vec<u8>> = Vec::new();
    let mut k: usize = 0;
    while k < total
        invariant
            k <= total,
            total == shards@.len(),
            total < 256,
            shards_view(shards@) == encoded,
            forall|m: int| 0 <= m < total ==> (#[trigger] shards@[m])@.len() == w,
            result@.len() == k,
            encoded.len() == total,
            forall|m: int|
                0 <= m < k ==> (#[trigger] result@[m])@ == seq![m as u8] + encoded[m],
        decreases total - k,
    {
        let mut shard: Vec<u8> = Vec::new();
        shard.push(k as u8);
        shard.extend_from_slice(shards[k].as_slice());
        assert(shard@ =~= seq![k as u8] + encoded[k as int]);
        result.push(shard);
        k += 1;
    }
    assert(shards_view(result@) =~= indexed_shards(encoded));
    (result, codec)
}

/// Drops the index byte of every present shard, rebuilds the missing shards, and returns the
/// first `length` bytes of all the shards in order.
pub fn erase_redundancy(data: Vec<Option<Vec<u8>>>, r: Codec, length: usize) -> (res: Result<
    Vec<u8>,
    ErasureError,
>)
    requires
        forall|i: int| 0 <= i < data@.len() && (#[trigger] data@[i]) is Some ==> data@[i]->0@.len() > 0,
    ensures
        erasure_outcome(
            option_shards_view(data@),
            codec_data_shards(r),
            codec_parity_shards(r),
            length as nat,
            match res {
                Ok(v) => Ok(v@),
                Err(e) => Err(e),
            },
        ),
{
    let ghost s = option_shards_view(data@);
    let n = data.len();
    let mut stripped: Vec<Option<Vec<u8>>> = Vec::new();
    let mut i: usize = 0;
    while i < n
        invariant
            i <= n,
            n == data@.len(),
            s == option_shards_view(data@),
            forall|j: int| 0 <= j < n && (#[trigger] data@[j]) is Some ==> data@[j]->0@.len() > 0,
            stripped@.len() == i,
            s.len() == n,
            option_shards_view(stripped@) == strip_index(s).take(i as int),
        decreases n - i,
    {
        match &data[i] {
            Some(v) => {
                assert(s[i as int] == Some(v@));
                let rest = slice_to_vec(slice_subrange(v.as_slice(), 1, v.len()));
                assert(rest@ =~= v@.drop_first());
                stripped.push(Some(rest));
            },
            None => {
                assert(s[i as int] == None::<Seq<u8>>);
                stripped.push(None);
            },
        }
        assert(option_shards_view(stripped@)[i as int] == strip_index(s)[i as int]);
        i += 1;
        assert(option_shards_view(stripped@) =~= strip_index(s).take(i as int));
    }
    assert(option_shards_view(stripped@) =~= strip_index(s));
    let ghost t = strip_index(s);
    match codec_reconstruct(&r, &mut stripped) {
        Err(e) => Err(e),
        Ok(()) => {
            let ghost f = option_shards_view(stripped@);
            let ghost full = Seq::new(f.len(), |j: int| f[j]->0);
            let mut out: Vec<u8> = Vec::new();
            let mut j: usize = 0;
            while j < stripped.len()
                invariant
                    j <= stripped@.len(),
                    f == option_shards_view(stripped@),
                    full == Seq::new(f.len(), |k: int| f[k]->0),
                    forall|k: int| 0 <= k < f.len() ==> (#[trigger] f[k]) is Some,
                    out@ == full.take(j as int).flatten(),
                decreases stripped@.len() - j,
            {
                match &stripped[j] {
                    Some(v) => {
                        out.extend_from_slice(v.as_slice());
                    },
                    None => {},
                }
                proof {
                    assert(full.take(j as int).push(full[j as int]) =~= full.take(j + 1));
                    full.take(j as int).lemma_flatten_push(full[j as int]);
                }
                j += 1;
            }
            assert(full.take(full.len() as int) =~= full);
            out.truncate(length);
            proof {
                lemma_flatten_uniform(full, present_len(t));
                assert(full =~= rs_reconstructed(t, codec_data_shards(r), codec_parity_shards(r)));
                assert(out@ == flatten_take(full, length as nat));
                assert forall|data: Seq<Seq<u8>>| #[trigger] consistent(t, data, codec_data_shards(r), codec_parity_shards(r)) implies out@ == flatten_take(
                    rs_encoded(data, codec_parity_shards(r)),
                    length as nat,
                ) by {
                    assert(full =~= rs_encoded(data, codec_parity_shards(r)));
                }
            }
            Ok(out)
        },
    }
}

// ---------------------------------------------------------------------------
// Recovering a message
// ---------------------------------------------------------------------------

proof fn lemma_shape_ok(t: Seq<Option<Seq<u8>>>, i: int, len: Option<nat>, w: nat)
    requires
        w > 0,
        0 <= i,
        len is None || len == Some(w),
        forall|j: int| 0 <= j < t.len() && (#[trigger] t[j]) is Some ==> t[j]->0.len() == w,
    ensures
        shape_error(t, i, len) is None,
    decreases t.len() - i,
{
    if i < t.len() {
        match t[i] {
            None => lemma_shape_ok(t, i + 1, len, w),
            Some(v) => lemma_shape_ok(t, i + 1, Some(w), w),
        }
    }
}

proof fn lemma_present_len(t: Seq<Option<Seq<u8>>>, k: int, w: nat)
    requires
        0 <= k < t.len(),
        t[k] is Some,
        forall|j: int| 0 <= j < t.len() && (#[trigger] t[j]) is Some ==> t[j]->0.len() == w,
    ensures
        present_len(t) == w,
    decreases t.len(),
{
    if t[0] is None {
        let rest = t.drop_first();
        assert(rest[k - 1] == t[k]);
        assert forall|j: int| 0 <= j < rest.len() && (#[trigger] rest[j]) is Some implies rest[j]->0.len() == w by {
            assert(rest[j] == t[j + 1]);
        }
        lemma_present_len(rest, k - 1, w);
    }
}

proof fn lemma_present_count(k: Seq<Option<Seq<u8>>>)
    ensures
        present_count(strip_index(k)) == present_count(k),
        present_count(k) <= k.len(),
        present_count(k) > 0 ==> exists|j: int| 0 <= j < k.len() && (#[trigger] k[j]) is Some,
    decreases k.len(),
{
    if k.len() > 0 {
        let init = k.drop_last();
        lemma_present_count(init);
        assert(strip_index(k).drop_last() =~= strip_index(init));
        if present_count(init) > 0 {
            let j = choose|j: int| 0 <= j < init.len() && (#[trigger] init[j]) is Some;
            assert(k[j] == init[j]);
        }
        if k.last() is Some {
            assert(k[k.len() - 1] is Some);
        }
    }
}

/// The bytes of a message's data shards, one after the other, begin with the message.
proof fn lemma_data_shards_cover(data: Seq<u8>, w: nat)
    requires
        w > 0,
    ensures
        data_shards_of(data, w).flatten().len() >= data.len(),
        data_shards_of(data, w).flatten().take(data.len() as int) == data,
{
    let shards = data_shards_of(data, w);
    let n = shard_count_for(data.len(), w);
    lemma_flatten_uniform(shards, w);
    crate::tcp_layer::lemma_segments_cover(data.len(), w);
    assert(n * w >= data.len());
    assert forall|x: int| 0 <= x < data.len() implies shards.flatten()[x] == data[x] by {
        let i = x / (w as int);
        let k = x % (w as int);
        vstd::arithmetic::div_mod::lemma_fundamental_div_mod(x, w as int);
        assert(i * w + k == x) by (nonlinear_arith)
            requires
                x == w * i + k,
        ;
        assert(i < n) by (nonlinear_arith)
            requires
                i * w + k == x,
                x < data.len(),
                n * w >= data.len(),
                0 <= k,
                w > 0,
                0 <= i,
        ;
        assert(shards[i][k] == data[x]);
    }
    assert(shards.flatten().take(data.len() as int) =~= data);
}

/// Law: the shards `make_redundancy` makes from a message, with any of them missing as long as
/// as many are present as there are data shards, give `erase_redundancy` the message back.
pub proof fn lemma_erasure_round_trip(
    data: Seq<u8>,
    padding: nat,
    p: nat,
    made: Seq<Seq<u8>>,
    kept: Seq<Option<Seq<u8>>>,
    r: Result<Seq<u8>, ErasureError>,
)
    requires
        padding >= 2,
        data.len() > 0,
        p > 0,
        shard_count_for(data.len(), (padding - 1) as nat) + p < 256,
        made.len() == shard_count_for(data.len(), (padding - 1) as nat) + p,
        made == indexed_shards(rs_encoded(data_shards_of(data, (padding - 1) as nat), p)),
        forall|i: int| 0 <= i < made.len() ==> (#[trigger] made[i]).len() == padding,
        kept.len() == made.len(),
        forall|i: int| 0 <= i < kept.len() ==> (#[trigger] kept[i]) is None || kept[i] == Some(made[i]),
        present_count(kept) >= shard_count_for(data.len(), (padding - 1) as nat),
        erasure_outcome(
            kept,
            shard_count_for(data.len(), (padding - 1) as nat),
            p,
            data.len(),
            r,
        ),
    ensures
        r == Ok::<Seq<u8>, ErasureError>(data),
{
    let w = (padding - 1) as nat;
    let d = shard_count_for(data.len(), w);
    let chunks = data_shards_of(data, w);
    let encoded = rs_encoded(chunks, p);
    let t = strip_index(kept);
    assert(d >= 1) by {
        vstd::arithmetic::div_mod::lemma_div_is_ordered(w as int, data.len() + w - 1, w as int);
        vstd::arithmetic::div_mod::lemma_div_by_self(w as int);
    }
    assert(encoded.len() == made.len());
    assert forall|i: int| 0 <= i < t.len() && (#[trigger] t[i]) is Some implies t[i]->0 == encoded[i]
        && t[i]->0.len() == w by {
        assert(kept[i] == Some(made[i]));
        assert(made[i] == seq![i as u8] + encoded[i]);
        assert((seq![i as u8] + encoded[i]).drop_first() =~= encoded[i]);
    }
    lemma_present_count(kept);
    let k = choose|j: int| 0 <= j < kept.len() && (#[trigger] kept[j]) is Some;
    assert(t.len() == kept.len());
    assert(t[k] == Some(kept[k]->0.drop_first()));
    lemma_present_len(t, k, w);
    lemma_shape_ok(t, 0, None, w);
    assert(reconstruct_error(t, d, p) is None);
    assert(consistent(t, chunks, d, p));
    let v = r->Ok_0;
    assert(v == flatten_take(encoded, data.len()));
    lemma_flatten_prefix(chunks, rs_parity(chunks, p));
    lemma_data_shards_cover(data, w);
    let f = encoded.flatten();
    let fd = chunks.flatten();
    assert(f.take(data.len() as int) =~= fd.take(data.len() as int)) by {
        assert forall|x: int| 0 <= x < data.len() implies f[x] == fd[x] by {
            assert(f.take(fd.len() as int)[x] == fd[x]);
        }
    }
    if data.len() < f.len() {
        assert(v =~= data);
    } else {
        assert(v =~= data);
    }
}

} // verus!
