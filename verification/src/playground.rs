//! Playground links: source code is deflated (raw DEFLATE) and the
//! compressed bytes are written in base 62, for the URL fragment that the
//! playground decodes.

use std::io::Write;

use flate2::write::DeflateEncoder;
use flate2::Compression;
use vstd::prelude::*;
use vstd::string::*;

use crate::text::push_char;

verus! {

// ---- compression -------------------------------------------------------------

/// The raw DEFLATE stream that flate2 produces for `data` at the default
/// compression level.
pub uninterp spec fn deflate_raw(data: Seq<u8>) -> Seq<u8>;

/// Trusted: calls flate2's `DeflateEncoder` (default level) on a `Vec`
/// writer; the result is the raw DEFLATE stream of `data`, which depends on
/// `data` alone. Writing into a `Vec` does not fail.
#[verifier::external_body]
fn deflate(data: &[u8]) -> (out: Vec<u8>)
    ensures
        out@ == deflate_raw(data@),
{
    let mut encoder = DeflateEncoder::new(Vec::new(), Compression::default());
    encoder.write_all(data).expect("deflate write");
    encoder.finish().expect("deflate finish")
}

// ---- numbers ---------------------------------------------------------------------

/// `2^32`, the base of the limbs.
pub open spec fn limb_base() -> nat {
    4294967296
}

/// `(2^32)^i`.
pub open spec fn limb_pow(i: nat) -> nat
    decreases i,
{
    if i == 0 {
        1
    } else {
        limb_base() * limb_pow((i - 1) as nat)
    }
}

/// Value of limbs stored least significant first.
pub open spec fn limbs_value(l: Seq<u32>) -> nat
    decreases l.len(),
{
    if l.len() == 0 {
        0
    } else {
        l[0] as nat + limb_base() * limbs_value(l.drop_first())
    }
}

/// Value of bytes read as a big-endian unsigned integer.
pub open spec fn be_value(b: Seq<u8>) -> nat
    decreases b.len(),
{
    if b.len() == 0 {
        0
    } else {
        be_value(b.drop_last()) * 256 + b.last() as nat
    }
}

proof fn lemma_limb_pow_positive(i: nat)
    ensures
        limb_pow(i) >= 1,
    decreases i,
{
    if i > 0 {
        lemma_limb_pow_positive((i - 1) as nat);
    }
}

/// The value of a concatenation of limb sequences.
proof fn lemma_limbs_concat(a: Seq<u32>, c: Seq<u32>)
    ensures
        limbs_value(a + c) == limbs_value(a) + limb_pow(a.len()) * limbs_value(c),
    decreases a.len(),
{
    if a.len() == 0 {
        assert(a + c =~= c);
        assert(limbs_value(a) == 0);
        assert(limb_pow(0) == 1);
    } else {
        lemma_limbs_concat(a.drop_first(), c);
        assert((a + c).drop_first() =~= a.drop_first() + c);
        assert((a + c)[0] == a[0]);
        let x = limbs_value(a.drop_first());
        let y = limbs_value(c);
        let p = limb_pow(a.drop_first().len());
        assert(limb_pow(a.len()) == limb_base() * p);
        assert(limbs_value(a + c) == a[0] + limb_base() * (x + p * y));
        assert(limb_base() * (x + p * y) == limb_base() * x + (limb_base() * p) * y) by (nonlinear_arith);
        assert(limbs_value(a) == a[0] + limb_base() * x);
        assert(limb_pow(a.len()) * y == (limb_base() * p) * y);
    }
}

proof fn lemma_limbs_push(a: Seq<u32>, x: u32)
    ensures
        limbs_value(a.push(x)) == limbs_value(a) + limb_pow(a.len()) * x,
{
    lemma_limbs_concat(a, seq![x]);
    assert(a + seq![x] =~= a.push(x));
    assert(limbs_value(seq![x]) == x) by {
        assert(seq![x].drop_first() =~= Seq::<u32>::empty());
        assert(limbs_value(Seq::<u32>::empty()) == 0);
    }
}

proof fn lemma_limbs_zero(l: Seq<u32>)
    ensures
        limbs_value(l) == 0 <==> forall|i: int| 0 <= i < l.len() ==> l[i] == 0,
    decreases l.len(),
{
    if l.len() > 0 {
        lemma_limbs_zero(l.drop_first());
        let r = limbs_value(l.drop_first());
        if limbs_value(l) == 0 {
            assert(l[0] == 0 && r == 0) by (nonlinear_arith)
                requires
                    l[0] + 4294967296 * r == 0,
                    r >= 0,
            ;
            assert forall|i: int| 0 <= i < l.len() implies l[i] == 0 by {
                if i > 0 {
                    assert(l[i] == l.drop_first()[i - 1]);
                }
            }
        }
        if forall|i: int| 0 <= i < l.len() ==> l[i] == 0 {
            assert forall|i: int| 0 <= i < l.drop_first().len() implies l.drop_first()[i] == 0 by {
                assert(l.drop_first()[i] == l[i + 1]);
            }
        }
    }
}

/// Big-endian bytes as limbs of 32 bits, least significant first, without
/// leading zero limbs above the first.
fn to_bigint(bytes: &[u8]) -> (limbs: Vec<u32>)
    ensures
        limbs@.len() >= 1,
        limbs@.len() == 1 || limbs@.last() != 0,
        limbs_value(limbs@) == be_value(bytes@),
{
    let mut limbs: Vec<u32> = Vec::new();
    limbs.push(0);
    proof {
        assert(limbs@.drop_first() =~= Seq::<u32>::empty());
        assert(limbs_value(Seq::<u32>::empty()) == 0);
        assert(bytes@.take(0) =~= Seq::<u8>::empty());
        assert(be_value(Seq::<u8>::empty()) == 0);
    }
    let mut k: usize = 0;
    while k < bytes.len()
        invariant
            k <= bytes@.len(),
            limbs@.len() >= 1,
            limbs@.len() == 1 || limbs@.last() != 0,
            limbs_value(limbs@) == be_value(bytes@.take(k as int)),
        decreases bytes@.len() - k,
    {
        let b = bytes[k];
        let ghost old_limbs = limbs@;
        // limbs = limbs * 256 + b
        let mut carry: u64 = b as u64;
        let mut i: usize = 0;
        proof {
            assert(limbs@.take(0) =~= Seq::<u32>::empty());
            assert(old_limbs.take(0) =~= Seq::<u32>::empty());
            assert(limbs_value(Seq::<u32>::empty()) == 0);
            assert(limb_pow(0) == 1);
            assert(limbs@.skip(0) =~= limbs@);
        }
        while i < limbs.len()
            invariant
                i <= limbs@.len(),
                limbs@.len() == old_limbs.len(),
                carry < 256,
                limbs@.skip(i as int) == old_limbs.skip(i as int),
                limbs_value(limbs@.take(i as int)) + limb_pow(i as nat) * carry == limbs_value(
                    old_limbs.take(i as int),
                ) * 256 + b,
                old_limbs.len() >= 1,
                i == limbs@.len() && old_limbs.last() != 0 ==> (limbs@.last() != 0 || carry > 0),
            decreases limbs@.len() - i,
        {
            let old_limb = limbs[i];
            assert(old_limb == old_limbs[i as int]) by {
                assert(limbs@.skip(i as int)[0] == limbs@[i as int]);
            }
            let v: u64 = (old_limb as u64) * 256 + carry;
            let new_limb = (v % 4294967296) as u32;
            let new_carry = v / 4294967296;
            assert(v == new_limb + 4294967296 * new_carry);
            let ghost before = limbs@;
            limbs.set(i, new_limb);
            proof {
                assert(limbs@.take(i as int) =~= before.take(i as int));
                assert(limbs@.take(i + 1) =~= limbs@.take(i as int).push(new_limb));
                assert(old_limbs.take(i + 1) =~= old_limbs.take(i as int).push(old_limb));
                lemma_limbs_push(limbs@.take(i as int), new_limb);
                lemma_limbs_push(old_limbs.take(i as int), old_limb);
                assert(before.skip(i + 1) =~= before.skip(i as int).drop_first());
                assert(old_limbs.skip(i + 1) =~= old_limbs.skip(i as int).drop_first());
                assert(limbs@.skip(i + 1) =~= before.skip(i + 1));
                assert(limbs@.skip(i + 1) =~= old_limbs.skip(i + 1));
                let p = limb_pow(i as nat);
                assert(limb_pow((i + 1) as nat) == limb_base() * p);
                assert(v == new_limb + limb_base() * new_carry);
                assert(p * new_limb + (limb_base() * p) * new_carry == p * v) by (nonlinear_arith)
                    requires
                        v == new_limb + limb_base() * new_carry,
                ;
                assert(p * v == p * old_limb * 256 + p * carry) by (nonlinear_arith)
                    requires
                        v == old_limb * 256 + carry,
                ;
                assert((limbs_value(old_limbs.take(i as int)) + p * old_limb) * 256 == limbs_value(
                    old_limbs.take(i as int),
                ) * 256 + p * old_limb * 256) by (nonlinear_arith);
            }
            carry = new_carry;
            i += 1;
        }
        proof {
            assert(limbs@.take(i as int) =~= limbs@);
            assert(old_limbs.take(i as int) =~= old_limbs);
        }
        if carry > 0 {
            let ghost before = limbs@;
            limbs.push(carry as u32);
            assert(limbs@.last() == carry as u32);
            proof {
                lemma_limbs_push(before, carry as u32);
            }
        }
        proof {
            assert(bytes@.take(k + 1).drop_last() =~= bytes@.take(k as int));
            assert(bytes@.take(k + 1).last() == b);
        }
        k += 1;
    }
    proof {
        assert(bytes@.take(k as int) =~= bytes@);
    }
    limbs
}

/// Divides limbs by 62: the quotient, without leading zero limbs above the
/// first, and the remainder.
fn div_mod_62(limbs: &Vec<u32>) -> (res: (Vec<u32>, usize))
    requires
        limbs@.len() >= 1,
    ensures
        res.0@.len() >= 1,
        res.0@.len() <= limbs@.len(),
        res.0@.len() == 1 || res.0@.last() != 0,
        res.1 < 62,
        limbs_value(limbs@) == 62 * limbs_value(res.0@) + res.1,
{
    let n = limbs.len();
    let mut result: Vec<u32> = Vec::new();
    let mut z: usize = 0;
    while z < n
        invariant
            z <= n,
            result@.len() == z,
        decreases n - z,
    {
        result.push(0);
        z += 1;
    }
    let mut remainder: u64 = 0;
    let mut i: usize = n;
    proof {
        assert(limbs@.skip(n as int) =~= Seq::<u32>::empty());
        assert(result@.skip(n as int) =~= Seq::<u32>::empty());
    }
    while i > 0
        invariant
            n == limbs@.len(),
            result@.len() == n,
            i <= n,
            remainder < 62,
            limbs_value(limbs@.skip(i as int)) == 62 * limbs_value(result@.skip(i as int)) + remainder,
        decreases i,
    {
        i -= 1;
        let cur: u64 = remainder * 4294967296 + limbs[i] as u64;
        let q = cur / 62;
        assert(q < 4294967296) by (nonlinear_arith)
            requires
                cur == remainder * 4294967296 + limbs@[i as int],
                remainder < 62,
                limbs@[i as int] < 4294967296,
                q == cur / 62,
        ;
        let ghost prev_rest = result@.skip(i + 1);
        let ghost prev_rem = remainder;
        result.set(i, q as u32);
        remainder = cur % 62;
        proof {
            assert(result@.skip(i + 1) =~= prev_rest);
            assert(result@.skip(i as int).drop_first() =~= result@.skip(i + 1));
            assert(limbs@.skip(i as int).drop_first() =~= limbs@.skip(i + 1));
            assert(result@.skip(i as int)[0] == q as u32);
            assert(limbs@.skip(i as int)[0] == limbs@[i as int]);
            let lr = limbs_value(limbs@.skip(i + 1));
            let rr = limbs_value(prev_rest);
            assert(cur == 62 * q + remainder);
            assert(limbs@[i as int] + limb_base() * lr == 62 * (q + limb_base() * rr) + remainder)
                by (nonlinear_arith)
                requires
                    lr == 62 * rr + prev_rem,
                    cur == prev_rem * 4294967296 + limbs@[i as int],
                    cur == 62 * q + remainder,
                    limb_base() == 4294967296,
            ;
        }
    }
    proof {
        assert(limbs@.skip(0) =~= limbs@);
        assert(result@.skip(0) =~= result@);
    }
    // Trim leading zero limbs.
    while result.len() > 1 && result[result.len() - 1] == 0
        invariant
            result@.len() >= 1,
            result@.len() <= n,
            limbs_value(limbs@) == 62 * limbs_value(result@) + remainder,
        decreases result@.len(),
    {
        let ghost before = result@;
        result.pop();
        proof {
            assert(before =~= result@.push(0));
            lemma_limbs_push(result@, 0);
        }
    }
    (result, remainder as usize)
}

fn is_zero(limbs: &Vec<u32>) -> (r: bool)
    ensures
        r == (limbs_value(limbs@) == 0),
{
    proof {
        lemma_limbs_zero(limbs@);
    }
    let mut i: usize = 0;
    while i < limbs.len()
        invariant
            i <= limbs@.len(),
            forall|k: int| 0 <= k < i ==> limbs@[k] == 0,
            limbs_value(limbs@) == 0 <==> forall|k: int| 0 <= k < limbs@.len() ==> limbs@[k] == 0,
        decreases limbs@.len() - i,
    {
        if limbs[i] != 0 {
            return false;
        }
        i += 1;
    }
    true
}

// ---- base 62 ----------------------------------------------------------------------

/// Base-62 digits of `v`, most significant first (`0` is the single digit 0).
pub open spec fn to_base62(v: nat) -> Seq<nat>
    decreases v,
{
    if v < 62 {
        seq![v]
    } else {
        to_base62(v / 62).push(v % 62)
    }
}

/// The digit character of a base-62 digit: `0-9`, then `a-z`, then `A-Z`.
pub open spec fn digit_char(d: nat) -> char {
    if d < 10 {
        (48 + d) as char
    } else if d < 36 {
        (97 + d - 10) as char
    } else {
        (65 + d - 36) as char
    }
}

/// Number of leading zero bytes.
pub open spec fn leading_zeros(b: Seq<u8>) -> nat
    decreases b.len(),
{
    if b.len() == 0 || b[0] != 0 {
        0
    } else {
        1 + leading_zeros(b.drop_first())
    }
}

/// Base-62 text of compressed bytes: one `0` per leading zero byte, then
/// the digits of the bytes read as a big-endian number; `0` when empty.
pub open spec fn base62_text(c: Seq<u8>) -> Seq<char> {
    if c.len() == 0 {
        seq!['0']
    } else {
        Seq::new(leading_zeros(c), |i: int| '0') + to_base62(be_value(c)).map_values(
            |d: nat| digit_char(d),
        )
    }
}

fn base62_char(d: usize) -> (c: char)
    requires
        d < 62,
    ensures
        c == digit_char(d as nat),
{
    if d < 10 {
        ((48 + d) as u8) as char
    } else if d < 36 {
        ((97 + d - 10) as u8) as char
    } else {
        ((65 + d - 36) as u8) as char
    }
}

/// Digits of `v`, most significant first; none for 0.
pub open spec fn nonzero_digits(v: nat) -> Seq<nat> {
    if v == 0 {
        seq![]
    } else {
        to_base62(v)
    }
}

proof fn lemma_nonzero_digits_step(v: nat)
    requires
        v > 0,
    ensures
        nonzero_digits(v) == nonzero_digits(v / 62).push(v % 62),
{
    if v < 62 {
        assert(nonzero_digits(0) =~= Seq::<nat>::empty());
        assert(seq![v] =~= Seq::<nat>::empty().push(v));
    }
}

/// Writes compressed bytes in base 62.
pub fn base62_encode(compressed: &[u8]) -> (r: String)
    ensures
        r@ == base62_text(compressed@),
{
    if compressed.len() == 0 {
        let mut r = String::new();
        push_char(&mut r, '0');
        assert(r@ =~= seq!['0']);
        return r;
    }
    // Count leading zero bytes (preserved as leading '0' digits).
    let mut lz: usize = 0;
    assert(compressed@.skip(0) =~= compressed@);
    while lz < compressed.len() && compressed[lz] == 0
        invariant
            lz <= compressed@.len(),
            leading_zeros(compressed@) == lz + leading_zeros(compressed@.skip(lz as int)),
        decreases compressed@.len() - lz,
    {
        assert(compressed@.skip(lz as int).drop_first() =~= compressed@.skip(lz + 1));
        lz += 1;
    }
    assert(leading_zeros(compressed@.skip(lz as int)) == 0);
    // Treat the bytes as a big-endian unsigned integer and take its digits,
    // least significant first.
    let mut n = to_bigint(compressed);
    let ghost v0 = limbs_value(n@);
    let mut digits: Vec<usize> = Vec::new();
    if is_zero(&n) {
        digits.push(0);
        assert(to_base62(v0) =~= seq![0nat]);
        assert(digits@.map_values(|d: usize| d as nat).reverse() =~= to_base62(v0));
    } else {
        while !is_zero(&n)
            invariant
                n@.len() >= 1,
                v0 > 0,
                forall|k: int| 0 <= k < digits@.len() ==> digits@[k] < 62,
                to_base62(v0) == nonzero_digits(limbs_value(n@)) + digits@.map_values(
                    |d: usize| d as nat,
                ).reverse(),
            decreases limbs_value(n@),
        {
            let ghost v = limbs_value(n@);
            let (quotient, remainder) = div_mod_62(&n);
            proof {
                lemma_nonzero_digits_step(v);
                assert(v / 62 == limbs_value(quotient@));
                assert(v % 62 == remainder);
            }
            let ghost old_digits = digits@;
            digits.push(remainder);
            proof {
                assert(digits@.map_values(|d: usize| d as nat).reverse() =~= seq![remainder as nat]
                    + old_digits.map_values(|d: usize| d as nat).reverse());
            }
            n = quotient;
        }
        assert(nonzero_digits(0) =~= Seq::<nat>::empty());
        assert(to_base62(v0) =~= digits@.map_values(|d: usize| d as nat).reverse());
    }
    // Leading '0' digits for the zero bytes, then the digits, most significant first.
    let mut result = String::new();
    let mut z: usize = 0;
    while z < lz
        invariant
            z <= lz,
            result@ =~= Seq::new(z as nat, |i: int| '0'),
        decreases lz - z,
    {
        push_char(&mut result, '0');
        z += 1;
    }
    let ghost prefix = result@;
    let mut k: usize = digits.len();
    while k > 0
        invariant
            k <= digits@.len(),
            forall|j: int| 0 <= j < digits@.len() ==> digits@[j] < 62,
            result@ =~= prefix + digits@.map_values(|d: usize| d as nat).reverse().take(
                (digits@.len() - k) as int,
            ).map_values(|d: nat| digit_char(d)),
        decreases k,
    {
        k -= 1;
        push_char(&mut result, base62_char(digits[k]));
        proof {
            let r = digits@.map_values(|d: usize| d as nat).reverse();
            assert(r[(digits@.len() - k - 1) as int] == digits@[k as int] as nat);
            assert(r.take((digits@.len() - k) as int) =~= r.take((digits@.len() - k - 1) as int).push(
                digits@[k as int] as nat,
            ));
        }
    }
    proof {
        let r = digits@.map_values(|d: usize| d as nat).reverse();
        assert(r.take(digits@.len() as int) =~= r);
        assert(be_value(compressed@) == v0);
    }
    result
}

// ---- decoding is possible ----------------------------------------------------------

/// Value of base-62 digits, most significant first.
pub open spec fn digits_value(ds: Seq<nat>) -> nat
    decreases ds.len(),
{
    if ds.len() == 0 {
        0
    } else {
        digits_value(ds.drop_last()) * 62 + ds.last()
    }
}

proof fn lemma_to_base62(v: nat)
    ensures
        digits_value(to_base62(v)) == v,
        to_base62(v).len() >= 1,
        forall|i: int| 0 <= i < to_base62(v).len() ==> #[trigger] to_base62(v)[i] < 62,
        (to_base62(v)[0] == 0) <==> v == 0,
    decreases v,
{
    if v >= 62 {
        lemma_to_base62(v / 62);
        let d = to_base62(v / 62);
        let e = to_base62(v);
        assert(e.drop_last() =~= d);
        assert(e.last() == v % 62);
        assert(e[0] == d[0]);
        assert((v / 62) * 62 + v % 62 == v) by (nonlinear_arith);
        assert forall|i: int| 0 <= i < e.len() implies #[trigger] e[i] < 62 by {
            if i < d.len() {
                assert(e[i] == d[i]);
            }
        }
    } else {
        assert(seq![v].drop_last() =~= Seq::<nat>::empty());
        assert(digits_value(Seq::<nat>::empty()) == 0);
        assert(seq![v].last() == v);
    }
}

proof fn lemma_digit_char(d: nat, e: nat)
    requires
        d < 62,
        e < 62,
    ensures
        digit_char(d) == digit_char(e) ==> d == e,
        digit_char(d) == '0' <==> d == 0,
{
}

/// Powers of 256.
pub open spec fn pow256(n: nat) -> nat
    decreases n,
{
    if n == 0 {
        1
    } else {
        256 * pow256((n - 1) as nat)
    }
}

proof fn lemma_pow256_mono(m: nat, n: nat)
    requires
        m <= n,
    ensures
        pow256(m) <= pow256(n),
        pow256(m) >= 1,
    decreases n,
{
    if n > m {
        lemma_pow256_mono(m, (n - 1) as nat);
    } else if n > 0 {
        lemma_pow256_mono(0, (n - 1) as nat);
    }
}

proof fn lemma_be_value_bounds(r: Seq<u8>)
    ensures
        be_value(r) < pow256(r.len()),
        r.len() > 0 && r[0] != 0 ==> be_value(r) >= pow256((r.len() - 1) as nat),
    decreases r.len(),
{
    if r.len() > 0 {
        let q = r.drop_last();
        lemma_be_value_bounds(q);
        let x = be_value(q);
        let l = r.last() as nat;
        assert(be_value(r) == x * 256 + l);
        assert(x * 256 + l < 256 * pow256(q.len())) by (nonlinear_arith)
            requires
                x < pow256(q.len()),
                l < 256,
        ;
        if r[0] != 0 {
            if q.len() > 0 {
                assert(q[0] == r[0]);
                assert(x * 256 + l >= 256 * pow256((q.len() - 1) as nat)) by (nonlinear_arith)
                    requires
                        x >= pow256((q.len() - 1) as nat),
                ;
            } else {
                assert(r.last() == r[0]);
            }
        }
    }
}

/// Bytes that do not start with a zero byte are determined by their value
/// and have the length that value needs.
proof fn lemma_be_value_injective(a: Seq<u8>, b: Seq<u8>)
    requires
        a.len() > 0 && a[0] != 0,
        b.len() > 0 && b[0] != 0,
        be_value(a) == be_value(b),
    ensures
        a == b,
    decreases a.len(),
{
    lemma_be_value_bounds(a);
    lemma_be_value_bounds(b);
    if a.len() < b.len() {
        lemma_pow256_mono(a.len(), (b.len() - 1) as nat);
    } else if b.len() < a.len() {
        lemma_pow256_mono(b.len(), (a.len() - 1) as nat);
    } else {
        let qa = a.drop_last();
        let qb = b.drop_last();
        let xa = be_value(qa);
        let xb = be_value(qb);
        let la = a.last() as nat;
        let lb = b.last() as nat;
        assert(xa == xb && la == lb) by (nonlinear_arith)
            requires
                xa * 256 + la == xb * 256 + lb,
                la < 256,
                lb < 256,
                xa >= 0,
                xb >= 0,
        ;
        if a.len() > 1 {
            assert(qa[0] == a[0] && qb[0] == b[0]);
            lemma_be_value_injective(qa, qb);
        }
        assert(a =~= qa.push(a.last()));
        assert(b =~= qb.push(b.last()));
    }
}

proof fn lemma_be_value_zero_prefix(r: Seq<u8>)
    ensures
        be_value(seq![0u8] + r) == be_value(r),
    decreases r.len(),
{
    if r.len() == 0 {
        assert((seq![0u8] + r).drop_last() =~= Seq::<u8>::empty());
        assert((seq![0u8] + r).last() == 0);
        assert(be_value(Seq::<u8>::empty()) == 0);
    } else {
        lemma_be_value_zero_prefix(r.drop_last());
        assert((seq![0u8] + r).drop_last() =~= seq![0u8] + r.drop_last());
        assert((seq![0u8] + r).last() == r.last());
    }
}

/// Bytes are their leading zero bytes followed by bytes that do not start
/// with a zero byte and have the same value.
proof fn lemma_leading_zeros(c: Seq<u8>)
    ensures
        leading_zeros(c) <= c.len(),
        c =~= Seq::new(leading_zeros(c), |i: int| 0u8) + c.skip(leading_zeros(c) as int),
        leading_zeros(c) < c.len() ==> c[leading_zeros(c) as int] != 0,
        be_value(c.skip(leading_zeros(c) as int)) == be_value(c),
    decreases c.len(),
{
    if c.len() > 0 && c[0] == 0 {
        let r = c.drop_first();
        lemma_leading_zeros(r);
        let k = leading_zeros(r);
        assert(c.skip((k + 1) as int) =~= r.skip(k as int));
        assert(seq![0u8] + r =~= c);
        lemma_be_value_zero_prefix(r);
        if k < r.len() {
            assert(c[(k + 1) as int] == r[k as int]);
        }
    } else {
        assert(c.skip(0) =~= c);
    }
}

proof fn lemma_zero_value_all_zero(c: Seq<u8>)
    requires
        be_value(c) == 0,
    ensures
        leading_zeros(c) == c.len(),
{
    lemma_leading_zeros(c);
    let k = leading_zeros(c);
    if k < c.len() {
        let r = c.skip(k as int);
        assert(r[0] == c[k as int]);
        lemma_be_value_bounds(r);
        lemma_pow256_mono(0, (r.len() - 1) as nat);
    }
}

/// Number of leading `0` characters.
pub open spec fn leading_zero_chars(s: Seq<char>) -> nat
    decreases s.len(),
{
    if s.len() == 0 || s[0] != '0' {
        0
    } else {
        1 + leading_zero_chars(s.drop_first())
    }
}

proof fn lemma_leading_zero_chars(k: nat, t: Seq<char>)
    ensures
        leading_zero_chars(Seq::new(k, |i: int| '0') + t) == k + leading_zero_chars(t),
    decreases k,
{
    if k > 0 {
        let z = Seq::new(k, |i: int| '0');
        assert((z + t).drop_first() =~= Seq::new((k - 1) as nat, |i: int| '0') + t);
        lemma_leading_zero_chars((k - 1) as nat, t);
    } else {
        assert(Seq::new(0, |i: int| '0') + t =~= t);
    }
}

/// The text of the digits of a value, one character per digit.
pub open spec fn digits_text(v: nat) -> Seq<char> {
    to_base62(v).map_values(|d: nat| digit_char(d))
}

proof fn lemma_digits_text(v: nat, w: nat)
    ensures
        digits_text(v).len() >= 1,
        leading_zero_chars(digits_text(v)) == (if v == 0 { 1nat } else { 0nat }),
        digits_text(v) == digits_text(w) ==> v == w,
{
    lemma_to_base62(v);
    lemma_to_base62(w);
    let dv = to_base62(v);
    let dw = to_base62(w);
    let tv = digits_text(v);
    lemma_digit_char(dv[0], 0);
    assert(tv.len() == dv.len());
    assert(tv[0] == digit_char(dv[0]));
    if v == 0 {
        assert(dv =~= seq![0nat]);
        assert(tv.drop_first() =~= Seq::<char>::empty());
        assert(leading_zero_chars(tv.drop_first()) == 0);
    }
    if tv == digits_text(w) {
        assert(digits_text(w).len() == dw.len());
        assert(dv.len() == dw.len());
        assert forall|i: int| 0 <= i < dv.len() implies dv[i] == dw[i] by {
            assert(tv[i] == digit_char(dv[i]));
            assert(digits_text(w)[i] == digit_char(dw[i]));
            lemma_digit_char(dv[i], dw[i]);
        }
        assert(dv =~= dw);
    }
}

/// Base-62 text can be decoded: different compressed bytes never give the
/// same text.
pub proof fn lemma_base62_text_injective(a: Seq<u8>, b: Seq<u8>)
    requires
        base62_text(a) == base62_text(b),
    ensures
        a == b,
{
    if a.len() == 0 && b.len() == 0 {
        return;
    }
    lemma_leading_zeros(a);
    lemma_leading_zeros(b);
    let ka = leading_zeros(a);
    let kb = leading_zeros(b);
    let va = be_value(a);
    let vb = be_value(b);
    lemma_digits_text(va, vb);
    lemma_digits_text(vb, va);
    lemma_leading_zero_chars(ka, digits_text(va));
    lemma_leading_zero_chars(kb, digits_text(vb));
    if a.len() == 0 || b.len() == 0 {
        // "0" alone against a longer text, or one that starts with a non-zero digit.
        let c = if a.len() == 0 { b } else { a };
        let k = leading_zeros(c);
        let v = be_value(c);
        lemma_leading_zeros(c);
        assert(seq!['0'].drop_first() =~= Seq::<char>::empty());
        assert(leading_zero_chars(seq!['0']) == 1);
        if v == 0 {
            lemma_zero_value_all_zero(c);
        } else {
            assert(k == 0);
            if c.len() > 0 {
                let r = c.skip(0);
                assert(r[0] == c[0]);
            }
        }
        assert(false);
    } else {
        let za = Seq::new(ka, |i: int| '0');
        let zb = Seq::new(kb, |i: int| '0');
        if va == 0 {
            lemma_zero_value_all_zero(a);
        }
        if vb == 0 {
            lemma_zero_value_all_zero(b);
        }
        if va == 0 && vb == 0 {
            assert(ka == kb);
            assert(a =~= b);
        } else if va != 0 && vb != 0 {
            assert(ka == kb);
            assert(base62_text(a).skip(ka as int) =~= digits_text(va));
            assert(base62_text(b).skip(kb as int) =~= digits_text(vb));
            assert(va == vb);
            let ra = a.skip(ka as int);
            let rb = b.skip(kb as int);
            lemma_be_value_injective(ra, rb);
            assert(a =~= b);
        } else {
            assert(base62_text(a).len() == ka + digits_text(va).len());
            assert(base62_text(b).len() == kb + digits_text(vb).len());
            if va == 0 {
                lemma_to_base62(0);
                assert(digits_text(0).len() == 1);
                assert(leading_zero_chars(base62_text(a)) == base62_text(a).len()) by {
                    assert(ka + 1 == base62_text(a).len());
                }
                lemma_leading_zero_chars_len(base62_text(b));
            } else {
                lemma_to_base62(0);
                assert(digits_text(0).len() == 1);
                lemma_leading_zero_chars_len(base62_text(a));
            }
        }
    }
}

proof fn lemma_leading_zero_chars_len(s: Seq<char>)
    ensures
        leading_zero_chars(s) <= s.len(),
    decreases s.len(),
{
    if s.len() > 0 && s[0] == '0' {
        lemma_leading_zero_chars_len(s.drop_first());
    }
}

/// Encode source code into a base62 string suitable for a playground URL hash.
pub fn encode_source(src: &str) -> (r: String)
    ensures
        r@ == base62_text(deflate_raw(src.spec_bytes())),
{
    let compressed = deflate(src.as_bytes());
    base62_encode(compressed.as_slice())
}

} // verus!
