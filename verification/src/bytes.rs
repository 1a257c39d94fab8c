//! Fixed-width integer encodings used by the on-disk formats.
use vstd::prelude::*;

verus! {

/// The four little-endian bytes of `x`.
pub open spec fn le32(x: u32) -> Seq<u8> {
    seq![(x & 0xff) as u8, ((x >> 8) & 0xff) as u8, ((x >> 16) & 0xff) as u8, ((x >> 24) & 0xff) as u8]
}

/// The four big-endian bytes of `x`.
pub open spec fn be32(x: u32) -> Seq<u8> {
    seq![((x >> 24) & 0xff) as u8, ((x >> 16) & 0xff) as u8, ((x >> 8) & 0xff) as u8, (x & 0xff) as u8]
}

/// The eight little-endian bytes of `x`.
pub open spec fn le64(x: u64) -> Seq<u8> {
    seq![
        (x & 0xff) as u8,
        ((x >> 8) & 0xff) as u8,
        ((x >> 16) & 0xff) as u8,
        ((x >> 24) & 0xff) as u8,
        ((x >> 32) & 0xff) as u8,
        ((x >> 40) & 0xff) as u8,
        ((x >> 48) & 0xff) as u8,
        ((x >> 56) & 0xff) as u8,
    ]
}

/// The value of four little-endian bytes.
pub open spec fn from_le32(b0: u8, b1: u8, b2: u8, b3: u8) -> u32 {
    (b0 as u32) | (b1 as u32) << 8 | (b2 as u32) << 16 | (b3 as u32) << 24
}

/// The value of eight little-endian bytes.
pub open spec fn from_le64(s: Seq<u8>) -> u64
    recommends
        s.len() == 8,
{
    (s[0] as u64) | (s[1] as u64) << 8 | (s[2] as u64) << 16 | (s[3] as u64) << 24 | (s[4] as u64)
        << 32 | (s[5] as u64) << 40 | (s[6] as u64) << 48 | (s[7] as u64) << 56
}

/// The little-endian value of the four bytes of `s` starting at `at`.
pub open spec fn read_le32(s: Seq<u8>, at: int) -> u32 {
    from_le32(s[at], s[at + 1], s[at + 2], s[at + 3])
}

/// Decoding four little-endian bytes undoes encoding.
pub proof fn lemma_le32_roundtrip(x: u32)
    ensures
        le32(x).len() == 4,
        from_le32(le32(x)[0], le32(x)[1], le32(x)[2], le32(x)[3]) == x,
{
    assert(x & 0xff < 256 && (x >> 8) & 0xff < 256 && (x >> 16) & 0xff < 256 && (x >> 24) & 0xff < 256) by (bit_vector);
    assert((x & 0xff) | ((x >> 8) & 0xff) << 8 | ((x >> 16) & 0xff) << 16 | ((x >> 24) & 0xff) << 24 == x) by (bit_vector);
}

/// Decoding eight little-endian bytes undoes encoding.
pub proof fn lemma_le64_roundtrip(x: u64)
    ensures
        le64(x).len() == 8,
        from_le64(le64(x)) == x,
{
    assert((x & 0xff) < 256 && ((x >> 8) & 0xff) < 256 && ((x >> 16) & 0xff) < 256 && ((x >> 24) & 0xff) < 256
        && ((x >> 32) & 0xff) < 256 && ((x >> 40) & 0xff) < 256 && ((x >> 48) & 0xff) < 256 && ((x >> 56) & 0xff) < 256) by (bit_vector);
    assert((x & 0xff) | ((x >> 8) & 0xff) << 8 | ((x >> 16) & 0xff) << 16 | ((x >> 24) & 0xff) << 24
        | ((x >> 32) & 0xff) << 32 | ((x >> 40) & 0xff) << 40 | ((x >> 48) & 0xff) << 48 | ((x >> 56) & 0xff) << 56 == x) by (bit_vector);
}

/// Encoding the value of four bytes gives back the bytes.
pub proof fn lemma_le32_to_from(b0: u8, b1: u8, b2: u8, b3: u8)
    ensures
        le32(from_le32(b0, b1, b2, b3)) == seq![b0, b1, b2, b3],
{
    let x = from_le32(b0, b1, b2, b3);
    let c0 = b0 as u32;
    let c1 = b1 as u32;
    let c2 = b2 as u32;
    let c3 = b3 as u32;
    assert(c0 < 256 && c1 < 256 && c2 < 256 && c3 < 256 && x == c0 | c1 << 8 | c2 << 16 | c3 << 24
        ==> x & 0xff == c0 && (x >> 8) & 0xff == c1 && (x >> 16) & 0xff == c2 && (x >> 24) & 0xff
        == c3) by (bit_vector);
    assert(le32(x) =~= seq![b0, b1, b2, b3]);
}

/// Encoding the value of eight bytes gives back the bytes.
pub proof fn lemma_le64_to_from(s: Seq<u8>)
    requires
        s.len() == 8,
    ensures
        le64(from_le64(s)) == s,
{
    let x = from_le64(s);
    let c0 = s[0] as u64;
    let c1 = s[1] as u64;
    let c2 = s[2] as u64;
    let c3 = s[3] as u64;
    let c4 = s[4] as u64;
    let c5 = s[5] as u64;
    let c6 = s[6] as u64;
    let c7 = s[7] as u64;
    assert(c0 < 256 && c1 < 256 && c2 < 256 && c3 < 256 && c4 < 256 && c5 < 256 && c6 < 256 && c7
        < 256 && x == c0 | c1 << 8 | c2 << 16 | c3 << 24 | c4 << 32 | c5 << 40 | c6 << 48 | c7 << 56
        ==> x & 0xff == c0 && (x >> 8) & 0xff == c1 && (x >> 16) & 0xff == c2 && (x >> 24) & 0xff
        == c3 && (x >> 32) & 0xff == c4 && (x >> 40) & 0xff == c5 && (x >> 48) & 0xff == c6 && (x
        >> 56) & 0xff == c7) by (bit_vector);
    assert(le64(x) =~= s);
}

/// Appends the little-endian bytes of `x` to `out`.
pub fn push_le32(out: &mut Vec<u8>, x: u32)
    ensures
        final(out)@ == old(out)@ + le32(x),
{
    out.push((x & 0xff) as u8);
    out.push(((x >> 8) & 0xff) as u8);
    out.push(((x >> 16) & 0xff) as u8);
    out.push(((x >> 24) & 0xff) as u8);
    assert(final(out)@ =~= old(out)@ + le32(x));
}

/// Appends the big-endian bytes of `x` to `out`.
pub fn push_be32(out: &mut Vec<u8>, x: u32)
    ensures
        final(out)@ == old(out)@ + be32(x),
{
    out.push(((x >> 24) & 0xff) as u8);
    out.push(((x >> 16) & 0xff) as u8);
    out.push(((x >> 8) & 0xff) as u8);
    out.push((x & 0xff) as u8);
    assert(final(out)@ =~= old(out)@ + be32(x));
}

/// Appends the little-endian bytes of `x` to `out`.
pub fn push_le64(out: &mut Vec<u8>, x: u64)
    ensures
        final(out)@ == old(out)@ + le64(x),
{
    out.push((x & 0xff) as u8);
    out.push(((x >> 8) & 0xff) as u8);
    out.push(((x >> 16) & 0xff) as u8);
    out.push(((x >> 24) & 0xff) as u8);
    out.push(((x >> 32) & 0xff) as u8);
    out.push(((x >> 40) & 0xff) as u8);
    out.push(((x >> 48) & 0xff) as u8);
    out.push(((x >> 56) & 0xff) as u8);
    assert(final(out)@ =~= old(out)@ + le64(x));
}

/// The little-endian value of the four bytes of `s` starting at `at`.
pub fn get_le32(s: &[u8], at: usize) -> (x: u32)
    requires
        at + 4 <= s@.len(),
    ensures
        x == read_le32(s@, at as int),
{
    (s[at] as u32) | (s[at + 1] as u32) << 8 | (s[at + 2] as u32) << 16 | (s[at + 3] as u32) << 24
}


/// The concatenation of a sequence of byte strings.
pub open spec fn flatten(parts: Seq<Seq<u8>>) -> Seq<u8>
    decreases parts.len(),
{
    if parts.len() == 0 {
        Seq::empty()
    } else {
        flatten(parts.drop_last()) + parts.last()
    }
}

/// Appending a part appends its bytes.
pub proof fn lemma_flatten_push(parts: Seq<Seq<u8>>, x: Seq<u8>)
    ensures
        flatten(parts.push(x)) == flatten(parts) + x,
{
    assert(parts.push(x).drop_last() =~= parts);
}

/// The concatenation of parts that all have length `w` holds part `i` at `w * i`.
pub proof fn lemma_flatten_uniform(parts: Seq<Seq<u8>>, w: int)
    requires
        w >= 0,
        forall|i: int| 0 <= i < parts.len() ==> #[trigger] parts[i].len() == w,
    ensures
        flatten(parts).len() == w * parts.len(),
        forall|i: int, j: int|
            0 <= i < parts.len() && 0 <= j < w ==> #[trigger] flatten(parts)[w * i + j]
                == parts[i][j],
    decreases parts.len(),
{
    if parts.len() > 0 {
        let init = parts.drop_last();
        lemma_flatten_uniform(init, w);
        let n = parts.len();
        assert(w * n == w * (n - 1) + w) by (nonlinear_arith);
        assert forall|i: int, j: int| 0 <= i < parts.len() && 0 <= j < w implies #[trigger] flatten(
            parts,
        )[w * i + j] == parts[i][j] by {
            if i < n - 1 {
                assert(w * i + j < w * (n - 1)) by (nonlinear_arith)
                    requires
                        0 <= i < n - 1,
                        0 <= j < w,
                ;
                assert(init[i] == parts[i]);
            } else {
                assert(w * i == w * (n - 1));
            }
        }
    }
}

/// The concatenation of any parts holds part `i` right after the parts before it.
pub proof fn lemma_flatten_part(parts: Seq<Seq<u8>>, i: int)
    requires
        0 <= i < parts.len(),
    ensures
        flatten(parts.take(i)).len() + parts[i].len() <= flatten(parts).len(),
        flatten(parts).subrange(
            flatten(parts.take(i)).len() as int,
            (flatten(parts.take(i)).len() + parts[i].len()) as int,
        ) == parts[i],
    decreases parts.len(),
{
    let init = parts.drop_last();
    if i == parts.len() - 1 {
        assert(parts.take(i) =~= init);
        assert(flatten(parts).subrange(
            flatten(parts.take(i)).len() as int,
            (flatten(parts.take(i)).len() + parts[i].len()) as int,
        ) =~= parts[i]);
    } else {
        lemma_flatten_part(init, i);
        assert(init.take(i) =~= parts.take(i));
        assert(init[i] == parts[i]);
        assert(flatten(parts).subrange(
            flatten(parts.take(i)).len() as int,
            (flatten(parts.take(i)).len() + parts[i].len()) as int,
        ) =~= flatten(init).subrange(
            flatten(parts.take(i)).len() as int,
            (flatten(parts.take(i)).len() + parts[i].len()) as int,
        ));
    }
}

/// The sum of a sequence of 32-bit sizes.
pub open spec fn seq_sum(s: Seq<u32>) -> int
    decreases s.len(),
{
    if s.len() == 0 {
        0
    } else {
        seq_sum(s.drop_last()) + s.last()
    }
}

/// The sum of a prefix grows by the next element.
pub proof fn lemma_seq_sum_step(s: Seq<u32>, i: int)
    requires
        0 <= i < s.len(),
    ensures
        seq_sum(s.take(i + 1)) == seq_sum(s.take(i)) + s[i],
{
    assert(s.take(i + 1).drop_last() =~= s.take(i));
}

/// Prefix sums are non-negative and bounded by the whole sum.
pub proof fn lemma_seq_sum_prefix(s: Seq<u32>, i: int)
    requires
        0 <= i <= s.len(),
    ensures
        0 <= seq_sum(s.take(i)) <= seq_sum(s),
    decreases s.len() - i,
{
    if i == s.len() {
        assert(s.take(i) =~= s);
        lemma_seq_sum_nonneg(s);
    } else {
        lemma_seq_sum_step(s, i);
        lemma_seq_sum_prefix(s, i + 1);
        lemma_seq_sum_nonneg(s.take(i));
    }
}

/// Sums of sizes are non-negative.
pub proof fn lemma_seq_sum_nonneg(s: Seq<u32>)
    ensures
        seq_sum(s) >= 0,
    decreases s.len(),
{
    if s.len() > 0 {
        lemma_seq_sum_nonneg(s.drop_last());
    }
}

/// Whether the bytes of `s` starting at `at` are exactly `expected`.
pub fn bytes_equal_at(s: &[u8], at: usize, expected: &[u8]) -> (r: bool)
    requires
        at + expected@.len() <= s@.len(),
    ensures
        r == (s@.subrange(at as int, at + expected@.len()) == expected@),
{
    let mut j: usize = 0;
    assert(at + expected@.len() <= s.len());
    while j < expected.len()
        invariant
            j <= expected@.len(),
            at + expected@.len() <= s@.len(),
            at + expected@.len() <= s.len(),
            forall|k: int| 0 <= k < j ==> s@[at + k] == expected@[k],
        decreases expected@.len() - j,
    {
        if s[at + j] != expected[j] {
            assert(s@.subrange(at as int, at + expected@.len())[j as int] != expected@[j as int]);
            return false;
        }
        j = j + 1;
    }
    assert(s@.subrange(at as int, at + expected@.len()) =~= expected@);
    true
}

/// Whether two byte strings are equal.
pub fn bytes_equal(a: &[u8], b: &[u8]) -> (r: bool)
    ensures
        r == (a@ == b@),
{
    if a.len() != b.len() {
        return false;
    }
    let r = bytes_equal_at(a, 0, b);
    assert(a@.subrange(0, b@.len() as int) =~= a@);
    r
}


/// `b` with `data` written at `at`, as a writer over a growable buffer
/// writes: the buffer grows to hold the data, and a gap between its end and
/// `at` is filled with zeros.
pub open spec fn spec_write_at(b: Seq<u8>, at: int, data: Seq<u8>) -> Seq<u8> {
    Seq::new(
        if b.len() >= at + data.len() {
            b.len()
        } else {
            (at + data.len()) as nat
        },
        |i: int|
            if at <= i < at + data.len() {
                data[i - at]
            } else if i < b.len() {
                b[i]
            } else {
                0u8
            },
    )
}

/// Writes `src` into `v` at `at`, growing `v` as needed and filling a gap
/// before `at` with zeros.
pub fn write_at(v: &mut Vec<u8>, at: usize, src: &[u8])
    requires
        at + src@.len() <= usize::MAX,
    ensures
        final(v)@ == spec_write_at(old(v)@, at as int, src@),
{
    let ghost orig = v@;
    while v.len() < at
        invariant
            orig.len() <= v@.len() <= at || v@.len() == orig.len(),
            forall|k: int| 0 <= k < v@.len() ==> #[trigger] v@[k] == if k < orig.len() {
                orig[k]
            } else {
                0u8
            },
            v@.len() >= orig.len(),
        decreases at - v@.len(),
    {
        v.push(0);
    }
    let ghost padded = v@;
    let mut j: usize = 0;
    while j < src.len()
        invariant
            j <= src@.len(),
            at + src@.len() <= usize::MAX,
            padded.len() >= at,
            padded.len() >= orig.len(),
            forall|k: int| 0 <= k < padded.len() ==> #[trigger] padded[k] == if k < orig.len() {
                orig[k]
            } else {
                0u8
            },
            v@.len() == if padded.len() >= at + j { padded.len() } else { (at + j) as nat },
            forall|k: int| 0 <= k < at ==> #[trigger] v@[k] == padded[k],
            forall|k: int| at <= k < at + j ==> #[trigger] v@[k] == src@[k - at],
            forall|k: int| at + j <= k < v@.len() ==> #[trigger] v@[k] == padded[k],
        decreases src@.len() - j,
    {
        if at + j < v.len() {
            v.set(at + j, src[j]);
        } else {
            v.push(src[j]);
        }
        j = j + 1;
    }
    assert(v@ =~= spec_write_at(orig, at as int, src@));
}

/// The number of leading `sizes` whose running total, counted from
/// `start`, stays within 32 bits: the largest `m` such that
/// `start + seq_sum(sizes.take(m))` fits.
pub open spec fn spec_fitting(start: int, sizes: Seq<u32>) -> nat
    decreases sizes.len(),
{
    if start + seq_sum(sizes) <= u32::MAX || sizes.len() == 0 {
        sizes.len()
    } else {
        spec_fitting(start, sizes.drop_last())
    }
}

/// A prefix of `sizes` fits, counted from `start`, exactly when it is no
/// longer than `spec_fitting(start, sizes)`.
pub proof fn lemma_fitting(start: int, sizes: Seq<u32>, i: int)
    requires
        0 <= start <= u32::MAX,
        0 <= i <= sizes.len(),
    ensures
        spec_fitting(start, sizes) <= sizes.len(),
        (start + seq_sum(sizes.take(i)) <= u32::MAX) <==> i <= spec_fitting(start, sizes),
    decreases sizes.len(),
{
    lemma_seq_sum_prefix(sizes, i);
    if start + seq_sum(sizes) <= u32::MAX || sizes.len() == 0 {
        if sizes.len() == 0 {
            assert(sizes.take(i) =~= Seq::<u32>::empty());
        }
    } else {
        let init = sizes.drop_last();
        let n = sizes.len();
        if i < n {
            assert(init.take(i) =~= sizes.take(i));
            lemma_fitting(start, init, i);
        } else {
            assert(sizes.take(i) =~= sizes);
            lemma_fitting(start, init, 0);
        }
    }
}

/// The number of leading `sizes` whose running total, counted from `start`,
/// fits in 32 bits (see `spec_fitting`).
pub fn fitting_prefix(start: u32, sizes: &[u32]) -> (m: usize)
    ensures
        m == spec_fitting(start as int, sizes@),
{
    let n = sizes.len();
    let mut total: u32 = start;
    let mut i: usize = 0;
    proof {
        assert(sizes@.take(0) =~= Seq::<u32>::empty());
        lemma_fitting(start as int, sizes@, 0);
    }
    while i < n
        invariant
            i <= n,
            n == sizes@.len(),
            total == start + seq_sum(sizes@.take(i as int)),
            i <= spec_fitting(start as int, sizes@),
        decreases n - i,
    {
        proof {
            lemma_seq_sum_step(sizes@, i as int);
            lemma_fitting(start as int, sizes@, i as int + 1);
        }
        match total.checked_add(sizes[i]) {
            Some(t) => total = t,
            None => {
                return i;
            },
        }
        i = i + 1;
    }
    proof {
        lemma_fitting(start as int, sizes@, n as int);
    }
    n
}

/// `n` zero bytes.
pub fn zeros(n: usize) -> (v: Vec<u8>)
    ensures
        v@ == Seq::new(n as nat, |i: int| 0u8),
{
    let mut v: Vec<u8> = Vec::with_capacity(n);
    let mut i: usize = 0;
    while i < n
        invariant
            i <= n,
            v@ == Seq::new(i as nat, |k: int| 0u8),
        decreases n - i,
    {
        v.push(0);
        i = i + 1;
        assert(v@ =~= Seq::new(i as nat, |k: int| 0u8));
    }
    v
}

/// The length of `s` as a `u64`.
pub fn len_u64(s: &[u8]) -> (n: u64)
    ensures
        n == s@.len(),
{
    s.len() as u64
}

} // verus!
