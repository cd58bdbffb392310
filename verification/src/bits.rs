//! Bit-level packing shared by the amplitude/phase and constellation schemes:
//! bytes become a most-significant-first bit stream, the stream is cut into
//! symbols of fixed bit widths (the last one padded with zero bits), and back.

use vstd::prelude::*;
use vstd::arithmetic::power2::{pow2, lemma_pow2_unfold, lemma_pow2_pos};

verus! {

/// Value of a bit string, most significant bit first.
pub open spec fn bits_value(b: Seq<bool>) -> nat
    decreases b.len(),
{
    if b.len() == 0 {
        0
    } else {
        2 * bits_value(b.drop_last()) + if b.last() { 1nat } else { 0nat }
    }
}

/// The low `w` bits of `v`, most significant first.
pub open spec fn uint_bits(v: nat, w: nat) -> Seq<bool>
    decreases w,
{
    if w == 0 {
        Seq::empty()
    } else {
        uint_bits(v / 2, (w - 1) as nat).push(v % 2 == 1)
    }
}

/// The bits of a byte string, eight per byte, most significant first.
pub open spec fn bits_of_bytes(d: Seq<u8>) -> Seq<bool> {
    Seq::new(d.len() * 8, |i: int| uint_bits(d[i / 8] as nat, 8)[i % 8])
}

/// Number of `w`-bit symbols needed for `n` bits.
pub open spec fn symbol_count(n: int, w: int) -> int {
    (n + w - 1) / w
}

/// `bits` padded with zero bits to a whole number of `w`-bit symbols.
pub open spec fn pad_bits(bits: Seq<bool>, w: nat) -> Seq<bool> {
    bits + Seq::new((symbol_count(bits.len() as int, w as int) * w - bits.len()) as nat, |i: int| false)
}

/// A bit stream cut into `(a + p)`-bit symbols, the first `a` bits of each the
/// amplitude index and the remaining `p` bits the phase index.
pub open spec fn spec_bits_to_pairs(bits: Seq<bool>, a: nat, p: nat) -> Seq<(usize, usize)> {
    let w = a + p;
    let pb = pad_bits(bits, w);
    Seq::new(
        symbol_count(bits.len() as int, w as int) as nat,
        |k: int| (
            bits_value(pb.subrange(k * w, k * w + a)) as usize,
            bits_value(pb.subrange(k * w + a, k * w + w)) as usize,
        ),
    )
}

/// The bits of `(a + p)`-bit symbols: the low `a` bits of each amplitude index,
/// then the low `p` bits of its phase index.
pub open spec fn spec_pairs_to_bits(syms: Seq<(usize, usize)>, a: nat, p: nat) -> Seq<bool> {
    Seq::new(
        syms.len() * (a + p),
        |i: int| {
            let k = i / (a + p) as int;
            let j = i % (a + p) as int;
            if j < a {
                uint_bits(syms[k].0 as nat, a)[j]
            } else {
                uint_bits(syms[k].1 as nat, p)[j - a]
            }
        },
    )
}

/// The bytes of a bit stream: one per complete group of eight bits.
pub open spec fn spec_bits_to_bytes(bits: Seq<bool>) -> Seq<u8> {
    Seq::new(bits.len() / 8, |k: int| bits_value(bits.subrange(k * 8, k * 8 + 8)) as u8)
}

/// `uint_bits` has the requested width.
pub proof fn lemma_uint_bits_len(v: nat, w: nat)
    ensures
        uint_bits(v, w).len() == w,
    decreases w,
{
    if w > 0 {
        lemma_uint_bits_len(v / 2, (w - 1) as nat);
    }
}

/// Bit `j` of `uint_bits(v, w)` is bit `w - 1 - j` of `v`.
pub proof fn lemma_uint_bits_index(v: nat, w: nat, j: int)
    requires
        0 <= j < w,
    ensures
        uint_bits(v, w)[j] == ((v / pow2((w - 1 - j) as nat)) % 2 == 1),
    decreases w,
{
    lemma_uint_bits_len(v / 2, (w - 1) as nat);
    if j == w - 1 {
        assert(pow2(0) == 1) by { vstd::arithmetic::power2::lemma2_to64(); }
        assert((w - 1 - j) as nat == 0);
    } else {
        lemma_uint_bits_index(v / 2, (w - 1) as nat, j);
        let e = (w - 2 - j) as nat;
        lemma_pow2_unfold((e + 1) as nat);
        lemma_pow2_pos(e);
        vstd::arithmetic::div_mod::lemma_div_denominator(v as int, 2, pow2(e) as int);
        assert((w - 1 - j) as nat == e + 1);
        assert(pow2((w - 1 - j) as nat) == 2 * pow2(e));
        assert(uint_bits(v, w)[j] == uint_bits(v / 2, (w - 1) as nat)[j]);
        assert((v / 2) / pow2(e) == v / pow2((w - 1 - j) as nat));
    }
}

/// A bit string has a value below `2^len`.
pub proof fn lemma_bits_value_bound(b: Seq<bool>)
    ensures
        bits_value(b) < pow2(b.len()),
    decreases b.len(),
{
    if b.len() == 0 {
        assert(pow2(0) == 1) by { vstd::arithmetic::power2::lemma2_to64(); }
    } else {
        lemma_bits_value_bound(b.drop_last());
        lemma_pow2_unfold(b.len());
    }
}

/// Reading a bit string's value back out as bits gives the bit string.
pub proof fn lemma_uint_bits_of_value(b: Seq<bool>)
    ensures
        uint_bits(bits_value(b), b.len()) == b,
    decreases b.len(),
{
    if b.len() > 0 {
        let x = bits_value(b.drop_last());
        let l: nat = if b.last() { 1 } else { 0 };
        assert((2 * x + l) / 2 == x);
        assert((2 * x + l) % 2 == l);
        lemma_uint_bits_of_value(b.drop_last());
        assert(uint_bits(bits_value(b), b.len()) =~= b.drop_last().push(b.last()));
        assert(b.drop_last().push(b.last()) =~= b);
    }
}

/// The value of the low `w` bits of `v`, for `v < 2^w`, is `v`.
pub proof fn lemma_value_of_uint_bits(v: nat, w: nat)
    requires
        v < pow2(w),
    ensures
        bits_value(uint_bits(v, w)) == v,
    decreases w,
{
    if w == 0 {
        assert(pow2(0) == 1) by { vstd::arithmetic::power2::lemma2_to64(); }
    } else {
        lemma_pow2_unfold(w);
        lemma_value_of_uint_bits(v / 2, (w - 1) as nat);
        let u = uint_bits(v, w);
        assert(u.drop_last() =~= uint_bits(v / 2, (w - 1) as nat));
    }
}


/// `n` is a power of two (that fits a `usize`).
pub open spec fn is_pow2_usize(n: usize) -> bool {
    exists|k: nat| k < 64 && #[trigger] pow2(k) == n
}

/// The exponent of a power of two.
pub open spec fn spec_log2(n: usize) -> nat {
    choose|k: nat| k < 64 && #[trigger] pow2(k) == n
}

/// `pow2` is injective.
proof fn lemma_pow2_injective(a: nat, b: nat)
    requires
        pow2(a) == pow2(b),
    ensures
        a == b,
{
    if a < b {
        vstd::arithmetic::power2::lemma_pow2_strictly_increases(a, b);
    } else if b < a {
        vstd::arithmetic::power2::lemma_pow2_strictly_increases(b, a);
    }
}

/// `2^k` is a power of two with exponent `k`.
pub proof fn lemma_spec_log2_pow2(k: nat)
    requires
        k < 64,
        pow2(k) <= usize::MAX,
    ensures
        is_pow2_usize(pow2(k) as usize),
        spec_log2(pow2(k) as usize) == k,
{
    let n = pow2(k) as usize;
    assert(pow2(k) == n);
    assert(is_pow2_usize(n));
    let j = spec_log2(n);
    lemma_pow2_injective(j, k);
}

/// Log base 2 of a power of two.
pub fn log2(n: usize) -> (r: usize)
    requires
        is_pow2_usize(n),
    ensures
        r == spec_log2(n),
        pow2(r as nat) == n,
        r < 64,
{
    let ghost k = spec_log2(n);
    let mut m = n;
    let mut r: usize = 0;
    while m > 1
        invariant
            k < 64,
            pow2(k) == n,
            r <= k,
            m == pow2((k - r) as nat),
        decreases m,
    {
        proof {
            if r == k {
                assert(pow2(0) == 1) by { vstd::arithmetic::power2::lemma2_to64(); }
            }
            lemma_pow2_unfold((k - r) as nat);
        }
        m = m / 2;
        r += 1;
    }
    proof {
        lemma_pow2_pos((k - r) as nat);
        if r < k {
            lemma_pow2_unfold((k - r) as nat);
            lemma_pow2_pos((k - r - 1) as nat);
        }
    }
    r
}

/// The value of at most 63 bits, most significant first.
pub fn bits_to_usize(bits: &[bool]) -> (r: usize)
    requires
        pow2(bits@.len()) <= usize::MAX,
    ensures
        r == bits_value(bits@),
{
    let mut acc: usize = 0;
    let mut i: usize = 0;
    while i < bits.len()
        invariant
            i <= bits@.len(),
            pow2(bits@.len()) <= usize::MAX,
            acc == bits_value(bits@.subrange(0, i as int)),
        decreases bits@.len() - i,
    {
        proof {
            lemma_bits_value_bound(bits@.subrange(0, i as int));
            lemma_pow2_unfold((i + 1) as nat);
            if i + 1 < bits@.len() {
                vstd::arithmetic::power2::lemma_pow2_strictly_increases((i + 1) as nat, bits@.len());
            }
            assert(acc * 2 + 1 < pow2((i + 1) as nat));
            assert(bits@.subrange(0, i + 1).drop_last() =~= bits@.subrange(0, i as int));
        }
        acc = acc * 2 + if bits[i] { 1 } else { 0 };
        i += 1;
    }
    assert(bits@.subrange(0, bits@.len() as int) =~= bits@);
    acc
}

/// The bits of `data`, eight per byte, most significant first.
pub fn bytes_to_bits(data: &[u8]) -> (r: Vec<bool>)
    requires
        data@.len() * 8 <= usize::MAX,
    ensures
        r@ == bits_of_bytes(data@),
{
    let mut out: Vec<bool> = Vec::new();
    let mut k: usize = 0;
    while k < data.len()
        invariant
            k <= data@.len(),
            data@.len() * 8 <= usize::MAX,
            out@.len() == k * 8,
            forall|m: int| 0 <= m < out@.len() ==> #[trigger] out@[m] == uint_bits(data@[m / 8] as nat, 8)[m % 8],
        decreases data@.len() - k,
    {
        let byte = data[k];
        let mut i: u8 = 8;
        while i > 0
            invariant
                i <= 8,
                k < data@.len(),
                byte == data@[k as int],
                out@.len() == k * 8 + (8 - i),
                forall|m: int| 0 <= m < out@.len() ==> #[trigger] out@[m] == uint_bits(data@[m / 8] as nat, 8)[m % 8],
            decreases i,
        {
            i -= 1;
            let bit = (byte >> i) & 1 == 1;
            proof {
                vstd::bits::lemma_u8_shr_is_div(byte, i);
                let x = byte >> i;
                assert(x & 1 == x % 2) by (bit_vector);
                lemma_uint_bits_index(byte as nat, 8, 7 - i);
                let m = out@.len() as int;
                assert(m / 8 == k && m % 8 == 7 - i);
            }
            out.push(bit);
        }
        k += 1;
    }
    assert(out@ =~= bits_of_bytes(data@));
    out
}

/// Cut a bit stream into `(a + p)`-bit symbols, padding the last with zero bits:
/// the first `a` bits of each symbol give its amplitude index, the next `p` its
/// phase index.
pub fn bits_to_pairs(bits: &[bool], a: usize, p: usize) -> (r: Vec<(usize, usize)>)
    requires
        a + p > 0,
        pow2(a as nat) <= usize::MAX,
        pow2(p as nat) <= usize::MAX,
        bits@.len() + a + p <= usize::MAX,
    ensures
        r@ == spec_bits_to_pairs(bits@, a as nat, p as nat),
{
    let w = a + p;
    let len = bits.len();
    let n = (len + w - 1) / w;
    let ghost pb = pad_bits(bits@, w as nat);
    let mut out: Vec<(usize, usize)> = Vec::new();
    let mut k: usize = 0;
    while k < n
        invariant
            w == a + p,
            w > 0,
            pow2(a as nat) <= usize::MAX,
            pow2(p as nat) <= usize::MAX,
            len == bits@.len(),
            len + w <= usize::MAX,
            n == symbol_count(len as int, w as int),
            pb == pad_bits(bits@, w as nat),
            k <= n,
            out@.len() == k,
            forall|m: int| 0 <= m < k ==> #[trigger] out@[m] == spec_bits_to_pairs(bits@, a as nat, p as nat)[m],
        decreases n - k,
    {
        assert(k * w < len) by (nonlinear_arith)
            requires k < n, n == (len + w - 1) / (w as int), w > 0;
        let start = k * w;
        let mut chunk: Vec<bool> = Vec::new();
        let mut j: usize = 0;
        while j < w
            invariant
                w > 0,
                j <= w,
                start < len,
                len == bits@.len(),
                len + w <= usize::MAX,
                chunk@.len() == j,
                forall|i: int| 0 <= i < j ==> #[trigger] chunk@[i] == (if start + i < len { bits@[start + i] } else { false }),
            decreases w - j,
        {
            chunk.push(if start + j < len { bits[start + j] } else { false });
            j += 1;
        }
        proof {
            assert((k + 1) * w <= symbol_count(len as int, w as int) * w) by (nonlinear_arith)
                requires k < n, n == symbol_count(len as int, w as int), w > 0;
            assert(k * w + w == (k + 1) * w) by (nonlinear_arith);
            assert(chunk@ =~= pb.subrange(k * w, k * w + w));
            assert(chunk@.subrange(0, a as int) =~= pb.subrange(k * w, k * w + a));
            assert(chunk@.subrange(a as int, w as int) =~= pb.subrange(k * w + a, k * w + w));
        }
        let amp = bits_to_usize(&chunk.as_slice()[0..a]);
        let phase = if p > 0 { bits_to_usize(&chunk.as_slice()[a..w]) } else { 0 };
        proof {
            if p == 0 {
                assert(pb.subrange(k * w + a, k * w + w) =~= Seq::<bool>::empty());
            }
        }
        out.push((amp, phase));
        k += 1;
    }
    assert(out@ =~= spec_bits_to_pairs(bits@, a as nat, p as nat));
    out
}


/// A width whose power of two fits a `usize` is below the width of `usize`.
proof fn lemma_width_below_usize_bits(a: nat)
    requires
        pow2(a) <= usize::MAX,
    ensures
        a < usize::BITS,
{
    vstd::arithmetic::power2::lemma2_to64();
    vstd::arithmetic::power2::lemma2_to64_rest();
    if a >= usize::BITS {
        if a > usize::BITS {
            vstd::arithmetic::power2::lemma_pow2_strictly_increases(usize::BITS as nat, a);
        }
        assert(usize::BITS == 32 || usize::BITS == 64);
    }
}

/// Append the low `w` bits of `v`, most significant first, to `out`.
fn push_uint_bits(out: &mut Vec<bool>, v: usize, w: usize)
    requires
        pow2(w as nat) <= usize::MAX,
    ensures
        final(out)@ == old(out)@ + uint_bits(v as nat, w as nat),
{
    proof {
        lemma_width_below_usize_bits(w as nat);
        lemma_uint_bits_len(v as nat, w as nat);
    }
    let ghost start = out@;
    let mut i: usize = w;
    while i > 0
        invariant
            i <= w < usize::BITS,
            uint_bits(v as nat, w as nat).len() == w,
            out@ == start + uint_bits(v as nat, w as nat).subrange(0, (w - i) as int),
        decreases i,
    {
        i -= 1;
        let bit = (v >> i) & 1 == 1;
        proof {
            vstd::bits::lemma_usize_shr_is_div(v, i);
            let x = v >> i;
            assert(x & 1 == x % 2) by (bit_vector);
            lemma_uint_bits_index(v as nat, w as nat, (w - 1 - i) as int);
            let u = uint_bits(v as nat, w as nat);
            assert(u.subrange(0, (w - i) as int) =~= u.subrange(0, (w - i - 1) as int).push(u[(w - 1 - i) as int]));
        }
        out.push(bit);
    }
    assert(uint_bits(v as nat, w as nat).subrange(0, w as int) =~= uint_bits(v as nat, w as nat));
}

/// The bits of `(a + p)`-bit symbols: the low `a` bits of each amplitude index
/// then the low `p` bits of its phase index, most significant first.
pub fn pairs_to_bits(syms: &[(usize, usize)], a: usize, p: usize) -> (r: Vec<bool>)
    requires
        pow2(a as nat) <= usize::MAX,
        pow2(p as nat) <= usize::MAX,
    ensures
        r@ == spec_pairs_to_bits(syms@, a as nat, p as nat),
{
    let ghost target = spec_pairs_to_bits(syms@, a as nat, p as nat);
    let ghost w = (a + p) as nat;
    let mut out: Vec<bool> = Vec::new();
    let mut k: usize = 0;
    while k < syms.len()
        invariant
            k <= syms@.len(),
            pow2(a as nat) <= usize::MAX,
            pow2(p as nat) <= usize::MAX,
            w == a + p,
            target == spec_pairs_to_bits(syms@, a as nat, p as nat),
            out@.len() == k * w,
            forall|m: int| 0 <= m < out@.len() ==> #[trigger] out@[m] == target[m],
        decreases syms@.len() - k,
    {
        let (amp, phase) = syms[k];
        let ghost before = out@;
        push_uint_bits(&mut out, amp, a);
        push_uint_bits(&mut out, phase, p);
        proof {
            lemma_uint_bits_len(amp as nat, a as nat);
            lemma_uint_bits_len(phase as nat, p as nat);
            assert(out@.len() == (k + 1) * w) by (nonlinear_arith)
                requires out@.len() == k * w + a + p, w == a + p;
            assert forall|m: int| k * w <= m < (k + 1) * w implies #[trigger] out@[m] == target[m] by {
                let j = m - k * w;
                assert(m / (w as int) == k && m % (w as int) == j) by (nonlinear_arith)
                    requires m == k * w + j, 0 <= j < w;
                assert(m < syms@.len() * w) by (nonlinear_arith)
                    requires m < (k + 1) * w, k < syms@.len(), w > 0;
            }
        }
        k += 1;
    }
    assert(out@ =~= target);
    out
}

/// The bytes of a bit stream: one per complete group of eight bits, most
/// significant bit first.
pub fn bits_to_bytes(bits: &[bool]) -> (r: Vec<u8>)
    ensures
        r@ == spec_bits_to_bytes(bits@),
{
    let len = bits.len();
    let n = len / 8;
    let mut out: Vec<u8> = Vec::new();
    let mut k: usize = 0;
    proof {
        vstd::arithmetic::power2::lemma2_to64();
    }
    while k < n
        invariant
            len == bits@.len(),
            n == bits@.len() / 8,
            k <= n,
            pow2(8) == 256,
            out@.len() == k,
            forall|m: int| 0 <= m < k ==> #[trigger] out@[m] == bits_value(bits@.subrange(m * 8, m * 8 + 8)) as u8,
        decreases n - k,
    {
        assert(k * 8 + 8 <= len);
        let chunk = &bits[k * 8..k * 8 + 8];
        assert(chunk@.len() == 8);
        let v = bits_to_usize(chunk);
        proof {
            lemma_bits_value_bound(chunk@);
        }
        out.push(v as u8);
        k += 1;
    }
    assert(out@ =~= spec_bits_to_bytes(bits@));
    out
}

/// Law: every symbol cut from a bit stream has an amplitude index below `2^a`
/// and a phase index below `2^p`.
pub proof fn lemma_pairs_in_range(bits: Seq<bool>, a: nat, p: nat)
    requires
        a + p > 0,
        pow2(a) <= usize::MAX,
        pow2(p) <= usize::MAX,
    ensures
        forall|k: int| 0 <= k < spec_bits_to_pairs(bits, a, p).len() ==> {
            &&& (#[trigger] spec_bits_to_pairs(bits, a, p)[k]).0 < pow2(a)
            &&& spec_bits_to_pairs(bits, a, p)[k].1 < pow2(p)
        },
{
    let w = a + p;
    let n = symbol_count(bits.len() as int, w as int);
    let pb = pad_bits(bits, w);
    assert(n * w >= bits.len()) by (nonlinear_arith)
        requires n == (bits.len() + w - 1) / (w as int), w > 0;
    assert(pb.len() == n * w);
    assert forall|k: int| 0 <= k < spec_bits_to_pairs(bits, a, p).len() implies {
        &&& (#[trigger] spec_bits_to_pairs(bits, a, p)[k]).0 < pow2(a)
        &&& spec_bits_to_pairs(bits, a, p)[k].1 < pow2(p)
    } by {
        assert(k * w + w <= n * w) by (nonlinear_arith)
            requires 0 <= k < n, w > 0;
        assert(k * w >= 0) by (nonlinear_arith)
            requires 0 <= k, w > 0;
        let amp_bits = pb.subrange(k * w, k * w + a);
        let phase_bits = pb.subrange(k * w + a, k * w + w);
        lemma_bits_value_bound(amp_bits);
        lemma_bits_value_bound(phase_bits);
    }
}

/// Law: cutting a bit stream into `(a + p)`-bit symbols and writing the symbols'
/// bits back gives the stream padded with zero bits to a whole symbol.
pub proof fn lemma_pairs_bits_roundtrip(bits: Seq<bool>, a: nat, p: nat)
    requires
        a + p > 0,
        pow2(a) <= usize::MAX,
        pow2(p) <= usize::MAX,
    ensures
        spec_pairs_to_bits(spec_bits_to_pairs(bits, a, p), a, p) == pad_bits(bits, a + p),
{
    let w = a + p;
    let syms = spec_bits_to_pairs(bits, a, p);
    let pb = pad_bits(bits, w);
    let r = spec_pairs_to_bits(syms, a, p);
    let n = symbol_count(bits.len() as int, w as int);
    assert(n * w >= bits.len()) by (nonlinear_arith)
        requires n == (bits.len() + w - 1) / (w as int), w > 0;
    assert(pb.len() == n * w);
    assert forall|i: int| 0 <= i < r.len() implies #[trigger] r[i] == pb[i] by {
        let k = i / (w as int);
        let j = i % (w as int);
        assert(i == k * w + j && 0 <= j < w && 0 <= k < n) by (nonlinear_arith)
            requires 0 <= i < n * w, k == i / (w as int), j == i % (w as int), w > 0;
        assert(k * w + w <= n * w) by (nonlinear_arith)
            requires 0 <= k < n, w > 0;
        let amp_bits = pb.subrange(k * w, k * w + a);
        let phase_bits = pb.subrange(k * w + a, k * w + w);
        lemma_bits_value_bound(amp_bits);
        lemma_bits_value_bound(phase_bits);
        lemma_uint_bits_of_value(amp_bits);
        lemma_uint_bits_of_value(phase_bits);
        if j < a {
            assert(r[i] == amp_bits[j]);
        } else {
            assert(r[i] == phase_bits[j - a]);
        }
    }
    assert(r =~= pb);
}

/// Law: the bytes of the bits of any bytes, followed by further bits, start with
/// those bytes.
pub proof fn lemma_bytes_bits_roundtrip(d: Seq<u8>, extra: Seq<bool>)
    ensures
        spec_bits_to_bytes(bits_of_bytes(d) + extra).subrange(0, d.len() as int) == d,
{
    let b = bits_of_bytes(d) + extra;
    let r = spec_bits_to_bytes(b);
    assert(r.len() >= d.len());
    vstd::arithmetic::power2::lemma2_to64();
    assert forall|k: int| 0 <= k < d.len() implies #[trigger] r[k] == d[k] by {
        let chunk = b.subrange(k * 8, k * 8 + 8);
        lemma_uint_bits_len(d[k] as nat, 8);
        assert forall|j: int| 0 <= j < 8 implies #[trigger] chunk[j] == uint_bits(d[k] as nat, 8)[j] by {
            assert((k * 8 + j) / 8 == k && (k * 8 + j) % 8 == j);
        }
        assert(chunk =~= uint_bits(d[k] as nat, 8));
        lemma_value_of_uint_bits(d[k] as nat, 8);
    }
    assert(r.subrange(0, d.len() as int) =~= d);
}


/// Law: bytes cut into `(a + p)`-bit symbols and written back as bytes start
/// with the bytes that went in.
pub proof fn lemma_symbol_packing_roundtrip(d: Seq<u8>, a: nat, p: nat)
    requires
        a + p > 0,
        pow2(a) <= usize::MAX,
        pow2(p) <= usize::MAX,
    ensures
        spec_bits_to_bytes(spec_pairs_to_bits(spec_bits_to_pairs(bits_of_bytes(d), a, p), a, p))
            .subrange(0, d.len() as int) == d,
{
    lemma_pairs_bits_roundtrip(bits_of_bytes(d), a, p);
    let b = bits_of_bytes(d);
    let w = a + p;
    lemma_bytes_bits_roundtrip(d, Seq::new((symbol_count(b.len() as int, w as int) * w - b.len()) as nat, |i: int| false));
}

} // verus!
