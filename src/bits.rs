//! Bit strings: the MSB-first bit view of octet strings, unsigned values of
//! bit strings, and the conversions between octets and bits.
use vstd::prelude::*;

verus! {

/// Bit `k` of an octet, counting from the most significant bit (`k == 0`).
pub open spec fn octet_bit(b: u8, k: int) -> bool {
    (b >> ((7 - k) as u8)) & 1u8 == 1u8
}

/// Bit `i` of an octet string, most significant bit of each octet first.
pub open spec fn bit_at(bytes: Seq<u8>, i: int) -> bool {
    octet_bit(bytes[i / 8], i % 8)
}

/// The bits of an octet string, most significant bit of each octet first.
pub open spec fn bits_of(bytes: Seq<u8>) -> Seq<bool> {
    Seq::new(bytes.len() * 8, |i: int| bit_at(bytes, i))
}

pub open spec fn pow2(n: nat) -> nat
    decreases n,
{
    if n == 0 {
        1
    } else {
        2 * pow2((n - 1) as nat)
    }
}

/// The unsigned value of a bit string read most significant bit first.
pub open spec fn uint_of(bits: Seq<bool>) -> nat
    decreases bits.len(),
{
    if bits.len() == 0 {
        0
    } else {
        2 * uint_of(bits.drop_last()) + if bits.last() {
            1nat
        } else {
            0nat
        }
    }
}

/// The `w` low bits of `v`, most significant first.
pub open spec fn uint_bits(v: nat, w: nat) -> Seq<bool>
    decreases w,
{
    if w == 0 {
        Seq::empty()
    } else {
        uint_bits(v / 2, (w - 1) as nat).push(v % 2 == 1)
    }
}

pub proof fn lemma_pow2_pos(n: nat)
    ensures
        pow2(n) >= 1,
    decreases n,
{
    if n > 0 {
        lemma_pow2_pos((n - 1) as nat);
    }
}

pub proof fn lemma_pow2_add(a: nat, b: nat)
    ensures
        pow2(a + b) == pow2(a) * pow2(b),
    decreases b,
{
    if b == 0 {
        assert(pow2(0) == 1);
        assert(a + b == a);
    } else {
        lemma_pow2_add(a, (b - 1) as nat);
        assert(pow2(b) == 2 * pow2((b - 1) as nat));
        assert((a + b - 1) as nat == a + (b - 1) as nat);
        assert(pow2(a + b) == 2 * pow2((a + b - 1) as nat));
        assert(pow2(a) * pow2(b) == pow2(a) * (2 * pow2((b - 1) as nat)));
        assert(pow2(a) * (2 * pow2((b - 1) as nat)) == 2 * (pow2(a) * pow2((b - 1) as nat)))
            by (nonlinear_arith);
    }
}

pub proof fn lemma_uint_bits_len(v: nat, w: nat)
    ensures
        uint_bits(v, w).len() == w,
    decreases w,
{
    if w > 0 {
        lemma_uint_bits_len(v / 2, (w - 1) as nat);
    }
}

/// Reading back the `w` low bits of `v` gives `v` modulo `2^w`.
pub proof fn lemma_uint_of_bits(v: nat, w: nat)
    ensures
        uint_of(uint_bits(v, w)) == v % pow2(w),
    decreases w,
{
    lemma_pow2_pos(w);
    if w > 0 {
        let p = pow2((w - 1) as nat);
        lemma_pow2_pos((w - 1) as nat);
        lemma_uint_of_bits(v / 2, (w - 1) as nat);
        let s = uint_bits(v, w);
        assert(s.drop_last() =~= uint_bits(v / 2, (w - 1) as nat));
        assert(uint_of(s) == 2 * ((v / 2) % p) + v % 2);
        assert(2 * ((v / 2) % p) + v % 2 == v % (2 * p)) by (nonlinear_arith)
            requires
                p >= 1,
        {
            let q = v / 2;
            let r = v % 2;
            assert(v == 2 * q + r);
            let qq = q / p;
            let qr = q % p;
            assert(q == qq * p + qr);
            assert(v == (2 * p) * qq + (2 * qr + r));
            assert(0 <= 2 * qr + r < 2 * p);
            vstd::arithmetic::div_mod::lemma_fundamental_div_mod_converse(
                v as int,
                (2 * p) as int,
                qq as int,
                (2 * qr + r) as int,
            );
        }
    }
}

/// The value of a bit string fits in as many bits as it has.
pub proof fn lemma_uint_of_bound(s: Seq<bool>)
    ensures
        uint_of(s) < pow2(s.len()),
    decreases s.len(),
{
    if s.len() > 0 {
        lemma_uint_of_bound(s.drop_last());
    }
}

/// The first `k` of the `w` low bits of `v` are the `k` low bits of
/// `v / 2^(w - k)`.
pub proof fn lemma_uint_bits_prefix(v: nat, w: nat, k: nat)
    requires
        k <= w,
    ensures
        uint_bits(v, w).take(k as int) == uint_bits(v / pow2((w - k) as nat), k),
    decreases w,
{
    lemma_uint_bits_len(v, w);
    if k == w {
        assert(pow2(0) == 1);
        assert(v / pow2(0) == v);
        assert(uint_bits(v, w).take(k as int) =~= uint_bits(v, w));
    } else {
        lemma_uint_bits_prefix(v / 2, (w - 1) as nat, k);
        lemma_uint_bits_len(v / 2, (w - 1) as nat);
        assert(uint_bits(v, w).take(k as int) =~= uint_bits(v / 2, (w - 1) as nat).take(k as int));
        let d = (w - 1 - k) as nat;
        lemma_pow2_pos(d);
        assert(pow2((w - k) as nat) == 2 * pow2(d));
        vstd::arithmetic::div_mod::lemma_div_denominator(v as int, 2, pow2(d) as int);
    }
}

proof fn lemma_octet_bits_determine(a: u8, b: u8)
    requires
        forall|k: int| 0 <= k < 8 ==> octet_bit(a, k) == octet_bit(b, k),
    ensures
        a == b,
{
    assert(octet_bit(a, 0) == octet_bit(b, 0));
    assert(octet_bit(a, 1) == octet_bit(b, 1));
    assert(octet_bit(a, 2) == octet_bit(b, 2));
    assert(octet_bit(a, 3) == octet_bit(b, 3));
    assert(octet_bit(a, 4) == octet_bit(b, 4));
    assert(octet_bit(a, 5) == octet_bit(b, 5));
    assert(octet_bit(a, 6) == octet_bit(b, 6));
    assert(octet_bit(a, 7) == octet_bit(b, 7));
    assert((((a >> 7u8) & 1u8 == 1u8) == ((b >> 7u8) & 1u8 == 1u8)) && (((a >> 6u8) & 1u8 == 1u8)
        == ((b >> 6u8) & 1u8 == 1u8)) && (((a >> 5u8) & 1u8 == 1u8) == ((b >> 5u8) & 1u8 == 1u8))
        && (((a >> 4u8) & 1u8 == 1u8) == ((b >> 4u8) & 1u8 == 1u8)) && (((a >> 3u8) & 1u8 == 1u8)
        == ((b >> 3u8) & 1u8 == 1u8)) && (((a >> 2u8) & 1u8 == 1u8) == ((b >> 2u8) & 1u8 == 1u8))
        && (((a >> 1u8) & 1u8 == 1u8) == ((b >> 1u8) & 1u8 == 1u8)) && (((a >> 0u8) & 1u8 == 1u8)
        == ((b >> 0u8) & 1u8 == 1u8)) ==> a == b) by (bit_vector);
}

/// Octet strings with the same bits are equal.
pub proof fn lemma_bits_of_injective(a: Seq<u8>, b: Seq<u8>)
    requires
        bits_of(a) == bits_of(b),
    ensures
        a == b,
{
    assert(a.len() == b.len()) by {
        assert(bits_of(a).len() == a.len() * 8);
    }
    assert forall|i: int| 0 <= i < a.len() implies a[i] == b[i] by {
        assert forall|k: int| 0 <= k < 8 implies octet_bit(a[i], k) == octet_bit(b[i], k) by {
            let j = i * 8 + k;
            assert(j / 8 == i && j % 8 == k) by (nonlinear_arith)
                requires
                    j == i * 8 + k,
                    0 <= k < 8,
            ;
            assert(0 <= j < a.len() * 8) by (nonlinear_arith)
                requires
                    j == i * 8 + k,
                    0 <= k < 8,
                    0 <= i < a.len(),
            ;
            assert(bits_of(a)[j] == bits_of(b)[j]);
            assert(bits_of(a)[j] == octet_bit(a[i], k));
            assert(bits_of(b)[j] == octet_bit(b[i], k));
        }
        lemma_octet_bits_determine(a[i], b[i]);
    }
    assert(a =~= b);
}

/// The bits of a run of whole octets inside a longer string.
pub proof fn lemma_bits_of_subrange(a: Seq<u8>, lo: int, hi: int)
    requires
        0 <= lo <= hi <= a.len(),
    ensures
        bits_of(a.subrange(lo, hi)) == bits_of(a).subrange(lo * 8, hi * 8),
{
    let s = a.subrange(lo, hi);
    assert forall|i: int| 0 <= i < (hi - lo) * 8 implies bits_of(s)[i] == bits_of(a)[lo * 8 + i] by {
        assert((lo * 8 + i) / 8 == lo + i / 8 && (lo * 8 + i) % 8 == i % 8) by (nonlinear_arith)
            requires
                0 <= i,
                0 <= lo,
        ;
        assert(0 <= i / 8 < hi - lo) by (nonlinear_arith)
            requires
                0 <= i < (hi - lo) * 8,
        ;
    }
    assert((hi - lo) * 8 == hi * 8 - lo * 8) by (nonlinear_arith);
    assert(bits_of(s) =~= bits_of(a).subrange(lo * 8, hi * 8));
}

/// The bits of a concatenation are the concatenation of the bits.
pub proof fn lemma_bits_of_add(a: Seq<u8>, b: Seq<u8>)
    ensures
        bits_of(a + b) == bits_of(a) + bits_of(b),
{
    let c = a + b;
    lemma_bits_of_subrange(c, 0, a.len() as int);
    lemma_bits_of_subrange(c, a.len() as int, c.len() as int);
    assert(c.subrange(0, a.len() as int) =~= a);
    assert(c.subrange(a.len() as int, c.len() as int) =~= b);
    let m = a.len() * 8;
    let n = c.len() * 8;
    assert(bits_of(c) =~= bits_of(c).subrange(0, m as int) + bits_of(c).subrange(m as int, n as int));
}

proof fn lemma_set_bit(b: u8, k: u8, j: int)
    requires
        k < 8,
        0 <= j < 8,
    ensures
        octet_bit(b | (1u8 << (7 - k) as u8), j) == (j == k || octet_bit(b, j)),
{
    let s: u8 = (7 - j) as u8;
    let t: u8 = (7 - k) as u8;
    assert(s < 8 && t < 8 ==> ((((b | (1u8 << t)) >> s) & 1u8 == 1u8) == (s == t || (b >> s) & 1u8
        == 1u8))) by (bit_vector);
}

proof fn lemma_zero_bits(j: u8)
    requires
        j < 8,
    ensures
        (0u8 >> (7 - j) as u8) & 1u8 == 0u8,
{
    assert(j < 8 ==> (0u8 >> (7 - j) as u8) & 1u8 == 0u8) by (bit_vector);
}

/// Expands octets into their bits, most significant first.
pub fn unpack_bits(bytes: &Vec<u8>) -> (r: Vec<bool>)
    requires
        bytes.len() * 8 <= usize::MAX,
    ensures
        r@ == bits_of(bytes@),
{
    let mut r: Vec<bool> = Vec::new();
    let mut i: usize = 0;
    while i < bytes.len()
        invariant
            i <= bytes.len(),
            bytes.len() * 8 <= usize::MAX,
            r.len() == i * 8,
            forall|j: int| 0 <= j < r.len() ==> r@[j] == octet_bit(bytes@[j / 8], j % 8),
        decreases bytes.len() - i,
    {
        let b = bytes[i];
        let mut k: u8 = 0;
        while k < 8
            invariant
                k <= 8,
                i < bytes.len(),
                b == bytes@[i as int],
                r.len() == i * 8 + k,
                forall|j: int| 0 <= j < r.len() ==> r@[j] == octet_bit(bytes@[j / 8], j % 8),
            decreases 8 - k,
        {
            let bit = (b >> (7 - k)) & 1 == 1;
            proof {
                let j = (i * 8 + k) as int;
                assert(j / 8 == i && j % 8 == k as int) by (nonlinear_arith)
                    requires
                        j == i * 8 + k,
                        k < 8,
                ;
            }
            r.push(bit);
            k = k + 1;
        }
        proof {
            assert((i + 1) * 8 == i * 8 + 8) by (nonlinear_arith);
        }
        i = i + 1;
    }
    assert(r@ =~= bits_of(bytes@));
    r
}

/// Packs bits into octets, most significant first; the last octet is padded
/// with zero bits.
pub fn pack_bits(bits: &Vec<bool>) -> (r: Vec<u8>)
    ensures
        r.len() == (bits.len() + 7) / 8,
        bits_of(r@).take(bits.len() as int) == bits@,
        forall|j: int| bits.len() <= j < r.len() * 8 ==> !bits_of(r@)[j],
{
    let n = bits.len();
    let nbytes = n / 8 + if n % 8 == 0 { 0 } else { 1 };
    let mut r: Vec<u8> = Vec::new();
    let mut i: usize = 0;
    while i < nbytes
        invariant
            n == bits.len(),
            nbytes == (n + 7) / 8,
            i <= nbytes,
            r.len() == i,
            forall|j: int| 0 <= j < i * 8 ==> #[trigger] bit_at(r@, j) == (j < n && bits@[j]),
        decreases nbytes - i,
    {
        let mut b: u8 = 0;
        let mut k: u8 = 0;
        proof {
            assert(i * 8 <= n) by (nonlinear_arith)
                requires
                    i < nbytes,
                    nbytes == (n + 7) / 8,
            ;
            assert forall|jj: int| 0 <= jj < 8 implies !octet_bit(b, jj) by {
                lemma_zero_bits(jj as u8);
            }
        }
        while k < 8
            invariant
                k <= 8,
                i < nbytes,
                nbytes == (n + 7) / 8,
                n == bits.len(),
                i * 8 <= n,
                forall|jj: int|
                    0 <= jj < 8 ==> octet_bit(b, jj) == (jj < k && i * 8 + jj < n && bits@[i * 8
                        + jj]),
            decreases 8 - k,
        {
            let base = i * 8;
            if (k as usize) < n - base && bits[base + k as usize] {
                let nb = b | (1u8 << (7 - k));
                proof {
                    assert forall|jj: int| 0 <= jj < 8 implies octet_bit(nb, jj) == (jj < k + 1
                        && i * 8 + jj < n && bits@[i * 8 + jj]) by {
                        lemma_set_bit(b, k, jj);
                    }
                }
                b = nb;
            }
            k = k + 1;
        }
        proof {
            assert forall|j: int| 0 <= j < (i + 1) * 8 implies bit_at(r@.push(b), j) == (j < n
                && bits@[j]) by {
                if j >= i * 8 {
                    assert(j / 8 == i && j % 8 == j - i * 8) by (nonlinear_arith)
                        requires
                            i * 8 <= j < (i + 1) * 8,
                    ;
                    assert(r@.push(b)[j / 8] == b);
                    assert(octet_bit(b, j - i * 8) == (j - i * 8 < k && i * 8 + (j - i * 8) < n
                        && bits@[i * 8 + (j - i * 8)]));
                } else {
                    assert(j / 8 < i) by (nonlinear_arith)
                        requires
                            0 <= j < i * 8,
                    ;
                    assert(r@.push(b)[j / 8] == r@[j / 8]);
                    assert(bit_at(r@, j) == (j < n && bits@[j]));
                }
            }
        }
        r.push(b);
        i = i + 1;
    }
    proof {
        assert forall|j: int| 0 <= j < n implies bits_of(r@)[j] == bits@[j] by {
            assert(j < r.len() * 8) by (nonlinear_arith)
                requires
                    r.len() == (n + 7) / 8,
                    0 <= j < n,
            ;
        }
        assert(bits_of(r@).take(n as int) =~= bits@);
        assert forall|j: int| n <= j < r.len() * 8 implies !bits_of(r@)[j] by {
            assert(j / 8 < r.len()) by (nonlinear_arith)
                requires
                    j < r.len() * 8,
                    0 <= j,
            ;
            assert(bits_of(r@)[j] == bit_at(r@, j));
        }
    }
    r
}

/// The unsigned value of `bits[start..start + w]`.
pub fn read_uint(bits: &Vec<bool>, start: usize, w: usize) -> (r: u64)
    requires
        start + w <= bits.len(),
        w <= 64,
    ensures
        r == uint_of(bits@.subrange(start as int, start + w)),
{
    let mut v: u64 = 0;
    let mut i: usize = 0;
    while i < w
        invariant
            i <= w,
            w <= 64,
            start + w <= bits.len(),
            v == uint_of(bits@.subrange(start as int, start + i)),
        decreases w - i,
    {
        proof {
            let s = bits@.subrange(start as int, start + i + 1);
            assert(s.drop_last() =~= bits@.subrange(start as int, start + i));
            lemma_uint_of_bound(bits@.subrange(start as int, start + i));
            lemma_pow2_mono(i as nat, 63);
            lemma_pow2_63();
        }
        let bit: u64 = if bits[start + i] { 1 } else { 0 };
        v = 2 * v + bit;
        i = i + 1;
    }
    v
}

pub proof fn lemma_pow2_mono(a: nat, b: nat)
    requires
        a <= b,
    ensures
        pow2(a) <= pow2(b),
    decreases b,
{
    if a < b {
        lemma_pow2_mono(a, (b - 1) as nat);
    }
}

pub proof fn lemma_pow2_values()
    ensures
        pow2(8) == 256,
        pow2(64) == 0x1_0000_0000_0000_0000,
{
    lemma_pow2_u64(8);
    assert(1u64 << 8u64 == 256u64) by (bit_vector);
    lemma_pow2_63();
}

proof fn lemma_pow2_63()
    ensures
        pow2(63) == 0x8000_0000_0000_0000,
{
    lemma_pow2_u64(63);
    assert(1u64 << 63u64 == 0x8000_0000_0000_0000u64) by (bit_vector);
}

proof fn lemma_pow2_u64(s: u64)
    requires
        s < 64,
    ensures
        pow2(s as nat) == (1u64 << s) as nat,
    decreases s,
{
    if s == 0 {
        assert(1u64 << 0u64 == 1u64) by (bit_vector);
    } else {
        lemma_pow2_u64((s - 1) as u64);
        assert(0 < s < 64 ==> (1u64 << s) == 2 * (1u64 << (s - 1) as u64)) by (bit_vector);
    }
}

/// The `w` low bits of `v`, most significant first.
pub fn uint_to_bits(v: u64, w: usize) -> (r: Vec<bool>)
    ensures
        r@ == uint_bits(v as nat, w as nat),
    decreases w,
{
    if w == 0 {
        Vec::new()
    } else {
        let mut r = uint_to_bits(v / 2, w - 1);
        r.push(v % 2 == 1);
        r
    }
}

} // verus!

verus! {

/// A copy of `bits[lo..hi]`.
pub fn slice_bits(bits: &Vec<bool>, lo: usize, hi: usize) -> (r: Vec<bool>)
    requires
        lo <= hi <= bits.len(),
    ensures
        r@ == bits@.subrange(lo as int, hi as int),
{
    let mut r: Vec<bool> = Vec::new();
    let mut i: usize = lo;
    while i < hi
        invariant
            lo <= i <= hi,
            hi <= bits.len(),
            r@ == bits@.subrange(lo as int, i as int),
        decreases hi - i,
    {
        r.push(bits[i]);
        proof {
            assert(r@ =~= bits@.subrange(lo as int, i + 1));
        }
        i = i + 1;
    }
    r
}

/// Appends `src` to `dst`.
pub fn append_bits(dst: &mut Vec<bool>, src: &Vec<bool>)
    ensures
        final(dst)@ == old(dst)@ + src@,
{
    let mut i: usize = 0;
    while i < src.len()
        invariant
            i <= src.len(),
            dst@ == old(dst)@ + src@.take(i as int),
        decreases src.len() - i,
    {
        dst.push(src[i]);
        proof {
            assert(dst@ =~= old(dst)@ + src@.take(i + 1));
        }
        i = i + 1;
    }
    proof {
        assert(src@.take(src.len() as int) =~= src@);
    }
}

/// Whether two bit strings are equal.
pub fn bits_equal(a: &Vec<bool>, b: &Vec<bool>) -> (r: bool)
    ensures
        r == (a@ == b@),
{
    if a.len() != b.len() {
        return false;
    }
    let mut i: usize = 0;
    while i < a.len()
        invariant
            i <= a.len(),
            a.len() == b.len(),
            a@.take(i as int) == b@.take(i as int),
        decreases a.len() - i,
    {
        if a[i] != b[i] {
            return false;
        }
        proof {
            assert(a@.take(i + 1) =~= a@.take(i as int).push(a@[i as int]));
            assert(b@.take(i + 1) =~= b@.take(i as int).push(b@[i as int]));
        }
        i = i + 1;
    }
    proof {
        assert(a@ =~= a@.take(i as int));
        assert(b@ =~= b@.take(i as int));
    }
    true
}

/// `n` zero bits.
pub fn zero_bits(n: usize) -> (r: Vec<bool>)
    ensures
        r@ == Seq::new(n as nat, |_i: int| false),
{
    let mut r: Vec<bool> = Vec::new();
    let mut i: usize = 0;
    while i < n
        invariant
            i <= n,
            r@ == Seq::new(i as nat, |_i: int| false),
        decreases n - i,
    {
        r.push(false);
        proof {
            assert(r@ =~= Seq::new((i + 1) as nat, |_i: int| false));
        }
        i = i + 1;
    }
    r
}

} // verus!
