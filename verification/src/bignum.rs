//! Arbitrary-precision signed integers for constant folding: a sign and a
//! big-endian magnitude. The arithmetic itself is done by the `num` crate
//! behind contracts that state each operation's value exactly.
use vstd::prelude::*;

verus! {

/// Value of a big-endian byte string.
pub open spec fn be_val(s: Seq<u8>) -> nat
    decreases s.len(),
{
    if s.len() == 0 {
        0
    } else {
        (be_val(s.drop_last()) * 256 + s.last()) as nat
    }
}

/// Value of a sign-and-magnitude pair.
pub open spec fn signed_val(neg: bool, mag: Seq<u8>) -> int {
    if neg {
        -(be_val(mag) as int)
    } else {
        be_val(mag) as int
    }
}

/// 256 to the n-th power.
pub open spec fn pow256(n: nat) -> nat
    decreases n,
{
    if n == 0 {
        1
    } else {
        256 * pow256((n - 1) as nat)
    }
}

/// Number of base-256 digits of a value; zero only for zero.
pub open spec fn nbytes(a: nat) -> nat
    decreases a,
{
    if a == 0 {
        0
    } else {
        1 + nbytes(a / 256)
    }
}

/// Byte-width complement of a non-negative value: the value of the bytewise
/// complement of its minimal big-endian representation (a width of one byte
/// for zero).
pub open spec fn not_val(a: nat) -> int {
    let width = if a == 0 {
        1
    } else {
        nbytes(a)
    };
    pow256(width) - 1 - a
}

/// Bitwise conjunction of two naturals.
pub open spec fn bit_and_nat(a: nat, b: nat) -> nat
    decreases a,
{
    if a == 0 || b == 0 {
        0
    } else {
        (a % 2) * (b % 2) + 2 * bit_and_nat(a / 2, b / 2)
    }
}

/// Bitwise disjunction of two naturals.
pub open spec fn bit_or_nat(a: nat, b: nat) -> nat
    decreases a,
{
    if a == 0 {
        b
    } else if b == 0 {
        a
    } else {
        (if a % 2 == 1 || b % 2 == 1 {
            1nat
        } else {
            0nat
        }) + 2 * bit_or_nat(a / 2, b / 2)
    }
}

/// Bitwise exclusive disjunction of two naturals.
pub open spec fn bit_xor_nat(a: nat, b: nat) -> nat
    decreases a,
{
    if a == 0 {
        b
    } else if b == 0 {
        a
    } else {
        ((a % 2 + b % 2) % 2) + 2 * bit_xor_nat(a / 2, b / 2)
    }
}

/// Quotient truncated toward zero, as the `num` crate's division computes it.
pub open spec fn tdiv(a: int, b: int) -> int {
    if (a < 0) == (b < 0) {
        vstd::math::abs(a) as int / vstd::math::abs(b) as int
    } else {
        -(vstd::math::abs(a) as int / vstd::math::abs(b) as int)
    }
}

/// Remainder of truncated division, carrying the dividend's sign.
pub open spec fn tmod(a: int, b: int) -> int {
    if a < 0 {
        -(vstd::math::abs(a) as int % vstd::math::abs(b) as int)
    } else {
        vstd::math::abs(a) as int % vstd::math::abs(b) as int
    }
}

/// Integer exponentiation.
pub open spec fn pow_int(b: int, e: nat) -> int
    decreases e,
{
    if e == 0 {
        1
    } else {
        b * pow_int(b, (e - 1) as nat)
    }
}

/// An arbitrary-precision signed integer: a sign and big-endian magnitude
/// bytes. The magnitude may carry leading zero bytes; contracts speak only of
/// the represented value, its view.
#[derive(Debug)]
pub struct BigNum {
    pub negative: bool,
    pub mag: Vec<u8>,
}

impl View for BigNum {
    type V = int;

    open spec fn view(&self) -> int {
        signed_val(self.negative, self.mag@)
    }
}

impl DeepView for BigNum {
    type V = int;

    open spec fn deep_view(&self) -> int {
        self.view()
    }
}

impl Clone for BigNum {
    fn clone(&self) -> (r: Self)
        ensures
            r@ == self@,
    {
        let mag = self.mag.clone();
        proof {
            assert(mag@ =~= self.mag@);
        }
        BigNum { negative: self.negative, mag }
    }
}

pub proof fn lemma_be_val_singleton(b: u8)
    ensures
        be_val(seq![b]) == b,
{
    assert(seq![b].drop_last() =~= Seq::<u8>::empty());
    assert(be_val(Seq::<u8>::empty()) == 0);
    assert(seq![b].last() == b);
}

pub proof fn lemma_be_val_zero(s: Seq<u8>)
    ensures
        (be_val(s) == 0) <==> (forall|i: int| 0 <= i < s.len() ==> s[i] == 0),
    decreases s.len(),
{
    if s.len() > 0 {
        let dl = s.drop_last();
        lemma_be_val_zero(dl);
        if be_val(s) == 0 {
            assert(be_val(dl) == 0);
            assert(s.last() == 0);
            assert forall|i: int| 0 <= i < s.len() implies s[i] == 0 by {
                if i < s.len() - 1 {
                    assert(dl[i] == s[i]);
                }
            }
        }
        if forall|i: int| 0 <= i < s.len() ==> s[i] == 0 {
            assert forall|i: int| 0 <= i < dl.len() implies dl[i] == 0 by {
                assert(dl[i] == s[i]);
            }
            assert(be_val(dl) == 0);
            assert(s.last() == 0);
        }
    }
}

pub proof fn lemma_be_val_bound(s: Seq<u8>)
    ensures
        be_val(s) < pow256(s.len()),
    decreases s.len(),
{
    if s.len() > 0 {
        lemma_be_val_bound(s.drop_last());
    }
}

/// Prepending a byte adds it at the most significant position.
pub proof fn lemma_be_val_prepend(b: u8, t: Seq<u8>)
    ensures
        be_val(seq![b] + t) == b * pow256(t.len()) + be_val(t),
    decreases t.len(),
{
    if t.len() == 0 {
        assert(seq![b] + t =~= seq![b]);
        lemma_be_val_singleton(b);
        assert(pow256(0) == 1);
        assert(be_val(t) == 0);
        assert(be_val(seq![b] + t) == b * pow256(t.len()) + be_val(t));
    } else {
        let n = t.len();
        let tdl = t.drop_last();
        lemma_be_val_prepend(b, tdl);
        assert((seq![b] + t).drop_last() =~= seq![b] + tdl);
        assert((seq![b] + t).last() == t.last());
        assert((seq![b] + t).len() == n + 1);
        assert(be_val(seq![b] + t) == be_val(seq![b] + tdl) * 256 + t.last());
        assert(be_val(seq![b] + tdl) == b * pow256((n - 1) as nat) + be_val(tdl));
        assert(pow256(n) == 256 * pow256((n - 1) as nat));
        assert((b * pow256((n - 1) as nat) + be_val(tdl)) * 256 == b * (256 * pow256(
            (n - 1) as nat)) + be_val(tdl) * 256) by (nonlinear_arith);
        assert(be_val(t) == be_val(tdl) * 256 + t.last());
    }
}

/// A big-endian value splits at any position into a high and a low part.
pub proof fn lemma_be_val_split(s: Seq<u8>, i: int)
    requires
        0 <= i <= s.len(),
    ensures
        be_val(s) == be_val(s.take(i)) * pow256((s.len() - i) as nat) + be_val(s.skip(i)),
    decreases s.len() - i,
{
    if i == s.len() {
        assert(s.take(i) =~= s);
        assert(s.skip(i) =~= Seq::<u8>::empty());
        assert(be_val(s.skip(i)) == 0);
        assert(pow256(0) == 1);
        assert(be_val(s.take(i)) * 1 == be_val(s.take(i)));
    } else {
        lemma_be_val_split(s, i + 1);
        assert(s.take(i + 1).drop_last() =~= s.take(i));
        assert(s.take(i + 1).last() == s[i]);
        assert(s.skip(i) =~= seq![s[i]] + s.skip(i + 1));
        lemma_be_val_prepend(s[i], s.skip(i + 1));
        let k = (s.len() - i - 1) as nat;
        let hi = be_val(s.take(i));
        let b = s[i];
        let lo = be_val(s.skip(i + 1));
        assert(s.skip(i + 1).len() == k);
        assert(be_val(s.skip(i)) == b * pow256(k) + lo);
        assert(pow256(k + 1) == 256 * pow256(k));
        assert(be_val(s.take(i + 1)) == hi * 256 + b);
        assert(be_val(s) == (hi * 256 + b) * pow256(k) + lo);
        assert((hi * 256 + b) * pow256(k) == hi * (256 * pow256(k)) + b * pow256(k))
            by (nonlinear_arith);
        assert((s.len() - i) as nat == k + 1);
        assert(be_val(s) == hi * pow256((s.len() - i) as nat) + be_val(s.skip(i)));
    }
}

/// The bytewise complement of a byte string has the complementary value.
pub proof fn lemma_be_val_complement(s: Seq<u8>, c: Seq<u8>)
    requires
        c.len() == s.len(),
        forall|i: int| 0 <= i < s.len() ==> c[i] == 255 - s[i],
    ensures
        be_val(c) + be_val(s) == pow256(s.len()) - 1,
    decreases s.len(),
{
    if s.len() > 0 {
        assert(c.drop_last().len() == s.drop_last().len());
        assert(forall|i: int|
            0 <= i < s.drop_last().len() ==> #[trigger] c.drop_last()[i] == 255
                - s.drop_last()[i]);
        lemma_be_val_complement(s.drop_last(), c.drop_last());
        assert(c.last() == 255 - s.last());
    }
}

/// A nonempty magnitude without a leading zero has exactly its length in
/// base-256 digits.
pub proof fn lemma_nbytes_range(v: nat, n: nat)
    requires
        n > 0,
        pow256((n - 1) as nat) <= v < pow256(n),
    ensures
        nbytes(v) == n,
    decreases n,
{
    if n == 1 {
        assert(pow256(0) == 1);
        assert(v >= 1);
        assert(v / 256 == 0);
        assert(nbytes(0) == 0);
        assert(nbytes(v) == 1 + nbytes(v / 256));
    } else {
        lemma_pow256_pos((n - 1) as nat);
        assert(v >= 1);
        assert(pow256(n) == 256 * pow256((n - 1) as nat));
        assert(pow256((n - 1) as nat) == 256 * pow256((n - 2) as nat));
        assert(v / 256 >= pow256((n - 2) as nat) && v / 256 < pow256((n - 1) as nat)) by {
            assert(v >= 256 * pow256((n - 2) as nat));
            assert(v < 256 * pow256((n - 1) as nat));
            assert(v / 256 >= pow256((n - 2) as nat)) by (nonlinear_arith)
                requires
                    v >= 256 * pow256((n - 2) as nat),
            ;
            assert(v / 256 < pow256((n - 1) as nat)) by (nonlinear_arith)
                requires
                    v < 256 * pow256((n - 1) as nat),
            ;
        }
        lemma_nbytes_range(v / 256, (n - 1) as nat);
        assert(v > 0);
    }
}

pub proof fn lemma_canonical_nbytes(s: Seq<u8>)
    requires
        s.len() > 0,
        s[0] != 0,
    ensures
        nbytes(be_val(s)) == s.len(),
{
    lemma_be_val_split(s, 1);
    assert(s.take(1) =~= seq![s[0]]);
    lemma_be_val_singleton(s[0]);
    lemma_pow256_pos((s.len() - 1) as nat);
    assert(be_val(s) >= 1 * pow256((s.len() - 1) as nat)) by {
        assert(be_val(s.take(1)) >= 1);
        assert(be_val(s.take(1)) * pow256((s.len() - 1) as nat) >= 1 * pow256(
            (s.len() - 1) as nat)) by (nonlinear_arith)
            requires
                be_val(s.take(1)) >= 1,
                pow256((s.len() - 1) as nat) > 0,
        ;
    }
    lemma_be_val_bound(s);
    lemma_nbytes_range(be_val(s), s.len());
}

pub proof fn lemma_pow256_pos(n: nat)
    ensures
        pow256(n) >= 1,
    decreases n,
{
    if n > 0 {
        lemma_pow256_pos((n - 1) as nat);
    }
}

impl BigNum {
    /// The zero value.
    pub fn zero() -> (r: BigNum)
        ensures
            r@ == 0,
    {
        BigNum { negative: false, mag: Vec::new() }
    }

    /// A single-byte value.
    pub fn from_byte(b: u8) -> (r: BigNum)
        ensures
            r@ == b,
    {
        let mut mag: Vec<u8> = Vec::new();
        mag.push(b);
        proof {
            assert(mag@ =~= seq![b]);
            lemma_be_val_singleton(b);
        }
        BigNum { negative: false, mag }
    }

    /// Returns true exactly when the value is zero.
    pub fn is_zero(&self) -> (r: bool)
        ensures
            r == (self@ == 0),
    {
        let mut i: usize = 0;
        let n = self.mag.len();
        while i < n
            invariant
                0 <= i <= n,
                n == self.mag.len(),
                forall|j: int| 0 <= j < i ==> self.mag@[j] == 0,
            decreases n - i,
        {
            if self.mag[i] != 0 {
                proof {
                    lemma_be_val_zero(self.mag@);
                }
                return false;
            }
            i = i + 1;
        }
        proof {
            lemma_be_val_zero(self.mag@);
        }
        true
    }

    /// The value as a usize, when it lies in the usize range.
    pub fn to_usize(&self) -> (r: Option<usize>)
        ensures
            match r {
                Some(v) => self@ == v,
                None => self@ < 0 || self@ > usize::MAX,
            },
    {
        if self.negative && !self.is_zero() {
            return None;
        }
        let mut acc: usize = 0;
        let n = self.mag.len();
        let mut i: usize = 0;
        while i < n
            invariant
                0 <= i <= n,
                n == self.mag.len(),
                acc == be_val(self.mag@.take(i as int)),
            decreases n - i,
        {
            let b = self.mag[i];
            if acc > usize::MAX / 256 || acc * 256 > usize::MAX - (b as usize) {
                proof {
                    let s = self.mag@;
                    let t1 = s.take(i + 1);
                    assert(t1.drop_last() =~= s.take(i as int));
                    assert(t1.last() == s[i as int]);
                    let v1 = be_val(t1);
                    assert(v1 == acc * 256 + b);
                    // In either branch the value of the first i + 1 bytes
                    // already exceeds the usize range.
                    if acc > usize::MAX / 256 {
                        assert(256 * (usize::MAX / 256) == usize::MAX - (usize::MAX % 256));
                        assert(acc * 256 >= (usize::MAX / 256 + 1) * 256) by (nonlinear_arith)
                            requires
                                acc >= usize::MAX / 256 + 1,
                        ;
                        assert(v1 > usize::MAX);
                    } else {
                        assert(v1 > usize::MAX);
                    }
                    lemma_be_val_split(s, i + 1);
                    let k = (s.len() - i - 1) as nat;
                    lemma_pow256_pos(k);
                    assert(v1 * pow256(k) >= v1 * 1) by (nonlinear_arith)
                        requires
                            pow256(k) >= 1,
                            v1 >= 0,
                    ;
                    assert(be_val(s) > usize::MAX);
                }
                return None;
            }
            acc = acc * 256 + (b as usize);
            proof {
                assert(self.mag@.take(i + 1).drop_last() =~= self.mag@.take(i as int));
                assert(self.mag@.take(i + 1).last() == self.mag@[i as int]);
            }
            i = i + 1;
        }
        proof {
            assert(self.mag@.take(n as int) =~= self.mag@);
        }
        Some(acc)
    }
}

/// Relies on `num::BigInt` addition; the magnitudes cross through
/// `from_bytes_be` and `to_bytes_be`.
#[verifier::external_body]
pub(crate) fn big_add(a: &BigNum, b: &BigNum) -> (r: BigNum)
    ensures
        r@ == a@ + b@,
{
    let sa = if a.negative { num::bigint::Sign::Minus } else { num::bigint::Sign::Plus };
    let sb = if b.negative { num::bigint::Sign::Minus } else { num::bigint::Sign::Plus };
    let x = num::BigInt::from_bytes_be(sa, &a.mag) + num::BigInt::from_bytes_be(sb, &b.mag);
    let (s, mag) = x.to_bytes_be();
    BigNum { negative: matches!(s, num::bigint::Sign::Minus), mag }
}

/// Relies on `num::BigInt` subtraction.
#[verifier::external_body]
pub(crate) fn big_sub(a: &BigNum, b: &BigNum) -> (r: BigNum)
    ensures
        r@ == a@ - b@,
{
    let sa = if a.negative { num::bigint::Sign::Minus } else { num::bigint::Sign::Plus };
    let sb = if b.negative { num::bigint::Sign::Minus } else { num::bigint::Sign::Plus };
    let x = num::BigInt::from_bytes_be(sa, &a.mag) - num::BigInt::from_bytes_be(sb, &b.mag);
    let (s, mag) = x.to_bytes_be();
    BigNum { negative: matches!(s, num::bigint::Sign::Minus), mag }
}

/// Relies on `num::BigInt` multiplication.
#[verifier::external_body]
pub(crate) fn big_mul(a: &BigNum, b: &BigNum) -> (r: BigNum)
    ensures
        r@ == a@ * b@,
{
    let sa = if a.negative { num::bigint::Sign::Minus } else { num::bigint::Sign::Plus };
    let sb = if b.negative { num::bigint::Sign::Minus } else { num::bigint::Sign::Plus };
    let x = num::BigInt::from_bytes_be(sa, &a.mag) * num::BigInt::from_bytes_be(sb, &b.mag);
    let (s, mag) = x.to_bytes_be();
    BigNum { negative: matches!(s, num::bigint::Sign::Minus), mag }
}

/// Relies on `num::BigInt` division, which truncates toward zero.
#[verifier::external_body]
pub(crate) fn big_div(a: &BigNum, b: &BigNum) -> (r: BigNum)
    requires
        b@ != 0,
    ensures
        r@ == tdiv(a@, b@),
{
    let sa = if a.negative { num::bigint::Sign::Minus } else { num::bigint::Sign::Plus };
    let sb = if b.negative { num::bigint::Sign::Minus } else { num::bigint::Sign::Plus };
    let x = num::BigInt::from_bytes_be(sa, &a.mag) / num::BigInt::from_bytes_be(sb, &b.mag);
    let (s, mag) = x.to_bytes_be();
    BigNum { negative: matches!(s, num::bigint::Sign::Minus), mag }
}

/// Relies on `num::BigInt` remainder, which carries the dividend's sign.
#[verifier::external_body]
pub(crate) fn big_rem(a: &BigNum, b: &BigNum) -> (r: BigNum)
    requires
        b@ != 0,
    ensures
        r@ == tmod(a@, b@),
{
    let sa = if a.negative { num::bigint::Sign::Minus } else { num::bigint::Sign::Plus };
    let sb = if b.negative { num::bigint::Sign::Minus } else { num::bigint::Sign::Plus };
    let x = num::BigInt::from_bytes_be(sa, &a.mag) % num::BigInt::from_bytes_be(sb, &b.mag);
    let (s, mag) = x.to_bytes_be();
    BigNum { negative: matches!(s, num::bigint::Sign::Minus), mag }
}

/// Relies on `num::pow`, exponentiation by repeated multiplication.
#[verifier::external_body]
pub(crate) fn big_pow(a: &BigNum, e: usize) -> (r: BigNum)
    ensures
        r@ == pow_int(a@, e as nat),
{
    let sa = if a.negative { num::bigint::Sign::Minus } else { num::bigint::Sign::Plus };
    let x = num::pow(num::BigInt::from_bytes_be(sa, &a.mag), e);
    let (s, mag) = x.to_bytes_be();
    BigNum { negative: matches!(s, num::bigint::Sign::Minus), mag }
}

/// Relies on `num::BigUint` bitwise conjunction.
#[verifier::external_body]
pub(crate) fn big_and(a: &BigNum, b: &BigNum) -> (r: BigNum)
    requires
        a@ >= 0,
        b@ >= 0,
    ensures
        r@ == bit_and_nat(a@ as nat, b@ as nat),
{
    let x = num::BigUint::from_bytes_be(&a.mag) & num::BigUint::from_bytes_be(&b.mag);
    BigNum { negative: false, mag: x.to_bytes_be() }
}

/// Relies on `num::BigUint` bitwise disjunction.
#[verifier::external_body]
pub(crate) fn big_or(a: &BigNum, b: &BigNum) -> (r: BigNum)
    requires
        a@ >= 0,
        b@ >= 0,
    ensures
        r@ == bit_or_nat(a@ as nat, b@ as nat),
{
    let x = num::BigUint::from_bytes_be(&a.mag) | num::BigUint::from_bytes_be(&b.mag);
    BigNum { negative: false, mag: x.to_bytes_be() }
}

/// Relies on `num::BigUint` bitwise exclusive disjunction.
#[verifier::external_body]
pub(crate) fn big_xor(a: &BigNum, b: &BigNum) -> (r: BigNum)
    requires
        a@ >= 0,
        b@ >= 0,
    ensures
        r@ == bit_xor_nat(a@ as nat, b@ as nat),
{
    let x = num::BigUint::from_bytes_be(&a.mag) ^ num::BigUint::from_bytes_be(&b.mag);
    BigNum { negative: false, mag: x.to_bytes_be() }
}

/// Relies on `num::BigInt` ordering (`Ord::cmp`).
#[verifier::external_body]
pub(crate) fn big_cmp(a: &BigNum, b: &BigNum) -> (r: i8)
    ensures
        (r == 1) <==> a@ > b@,
        (r == 0) <==> a@ == b@,
        (r == -1) <==> a@ < b@,
{
    let sa = if a.negative { num::bigint::Sign::Minus } else { num::bigint::Sign::Plus };
    let sb = if b.negative { num::bigint::Sign::Minus } else { num::bigint::Sign::Plus };
    let x = num::BigInt::from_bytes_be(sa, &a.mag);
    let y = num::BigInt::from_bytes_be(sb, &b.mag);
    match x.cmp(&y) {
        core::cmp::Ordering::Less => -1,
        core::cmp::Ordering::Equal => 0,
        core::cmp::Ordering::Greater => 1,
    }
}

/// Returns true exactly when the two values are equal.
pub fn big_eq(a: &BigNum, b: &BigNum) -> (r: bool)
    ensures
        r == (a@ == b@),
{
    big_cmp(a, b) == 0
}

/// The byte-width bitwise complement of a non-negative value: the original's
/// negate, the bytewise complement of the minimal big-endian representation.
pub fn big_not(a: &BigNum) -> (r: BigNum)
    requires
        a@ >= 0,
    ensures
        r@ == not_val(a@ as nat),
{
    // Strip leading zeros down to the minimal representation.
    let mut start: usize = 0;
    let n = a.mag.len();
    while start < n && a.mag[start] == 0
        invariant
            0 <= start <= n,
            n == a.mag.len(),
            forall|j: int| 0 <= j < start ==> a.mag@[j] == 0,
        decreases n - start,
    {
        start = start + 1;
    }
    proof {
        lemma_be_val_split(a.mag@, start as int);
        lemma_be_val_zero(a.mag@.take(start as int));
        assert(forall|j: int|
            0 <= j < start ==> #[trigger] a.mag@.take(start as int)[j] == a.mag@[j]);
        assert(be_val(a.mag@.take(start as int)) == 0);
        assert(be_val(a.mag@) == be_val(a.mag@.skip(start as int)));
    }
    let ghost canon = a.mag@.skip(start as int);
    if start == n {
        // The value is zero: its minimal representation is one zero byte.
        proof {
            assert(canon =~= Seq::<u8>::empty());
        }
        let mut mag: Vec<u8> = Vec::new();
        mag.push(255);
        proof {
            assert(mag@ =~= seq![255u8]);
            lemma_be_val_singleton(255);
        }
        return BigNum { negative: false, mag };
    }
    let mut out: Vec<u8> = Vec::new();
    let mut i: usize = start;
    while i < n
        invariant
            start <= i <= n,
            n == a.mag.len(),
            out@.len() == i - start,
            forall|j: int| 0 <= j < out@.len() ==> out@[j] == 255 - a.mag@[start + j],
        decreases n - i,
    {
        let b = a.mag[i];
        out.push(255 - b);
        i = i + 1;
    }
    proof {
        assert(forall|j: int| 0 <= j < canon.len() ==> out@[j] == 255 - #[trigger] canon[j]);
        lemma_be_val_complement(canon, out@);
        assert(canon[0] == a.mag@[start as int]);
        assert(canon[0] != 0);
        lemma_canonical_nbytes(canon);
        assert(nbytes(be_val(canon)) == canon.len());
        assert(be_val(canon) > 0) by {
            lemma_be_val_zero(canon);
        }
    }
    BigNum { negative: false, mag: out }
}

} // verus!
