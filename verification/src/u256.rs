//! Unsigned 256-bit integers, stored as 32 big-endian bytes.
use vstd::prelude::*;

verus! {

/// `256` to the power `n`.
pub open spec fn pow256(n: nat) -> nat
    decreases n,
{
    if n == 0 {
        1
    } else {
        256 * pow256((n - 1) as nat)
    }
}

/// The number that a byte string denotes when read most significant byte first.
pub open spec fn be_nat(s: Seq<u8>) -> nat
    decreases s.len(),
{
    if s.len() == 0 {
        0
    } else {
        be_nat(s.drop_last()) * 256 + s.last() as nat
    }
}

/// One more than the largest value a `U256` holds.
pub open spec fn u256_modulus() -> nat {
    pow256(32)
}

/// The ASCII decimal digits of `n`, most significant first, without leading zeros
/// (`"0"` for zero).
pub open spec fn dec_digits(n: nat) -> Seq<u8>
    decreases n,
{
    if n < 10 {
        seq![(n + 48) as u8]
    } else {
        dec_digits(n / 10).push((n % 10 + 48) as u8)
    }
}

/// Whether every byte is an ASCII decimal digit.
pub open spec fn all_digits(s: Seq<u8>) -> bool {
    forall|i: int| 0 <= i < s.len() ==> 48 <= #[trigger] s[i] <= 57
}

/// The number written by a string of ASCII decimal digits.
pub open spec fn dec_value(s: Seq<u8>) -> nat
    decreases s.len(),
{
    if s.len() == 0 {
        0
    } else {
        dec_value(s.drop_last()) * 10 + (s.last() - 48) as nat
    }
}

/// What parsing a decimal string into a `U256` yields: the value, when the string is a
/// non-empty run of decimal digits whose value fits in 256 bits.
pub open spec fn parse_decimal(s: Seq<u8>) -> Option<nat> {
    if s.len() > 0 && all_digits(s) && dec_value(s) < u256_modulus() {
        Some(dec_value(s))
    } else {
        None
    }
}

pub proof fn lemma_pow256_pos(n: nat)
    ensures
        pow256(n) >= 1,
    decreases n,
{
    if n > 0 {
        lemma_pow256_pos((n - 1) as nat);
    }
}

pub proof fn lemma_be_nat_bound(s: Seq<u8>)
    ensures
        be_nat(s) < pow256(s.len()),
    decreases s.len(),
{
    if s.len() > 0 {
        let p = pow256((s.len() - 1) as nat);
        lemma_be_nat_bound(s.drop_last());
        let b = be_nat(s.drop_last());
        let l = s.last();
        assert(b * 256 + l < 256 * p) by (nonlinear_arith)
            requires
                b < p,
                l < 256,
        ;
    }
}

pub proof fn lemma_be_nat_append(a: Seq<u8>, b: Seq<u8>)
    ensures
        be_nat(a + b) == be_nat(a) * pow256(b.len()) + be_nat(b),
    decreases b.len(),
{
    if b.len() == 0 {
        assert(a + b =~= a);
        assert(pow256(0) == 1);
        assert(be_nat(b) == 0);
    } else {
        let c = a + b;
        assert(c.drop_last() =~= a + b.drop_last());
        assert(c.last() == b.last());
        lemma_be_nat_append(a, b.drop_last());
        let x = be_nat(a);
        let p = pow256((b.len() - 1) as nat);
        let y = be_nat(b.drop_last());
        assert(pow256(b.len()) == 256 * p);
        assert(be_nat(c) == be_nat(c.drop_last()) * 256 + c.last() as nat);
        assert(be_nat(b) == y * 256 + b.last() as nat);
        assert((x * p + y) * 256 + b.last() == x * (256 * p) + (y * 256 + b.last()))
            by (nonlinear_arith);
    }
}

pub proof fn lemma_be_nat_single(x: u8)
    ensures
        be_nat(seq![x]) == x,
{
    assert(seq![x].drop_last() =~= Seq::<u8>::empty());
    assert(be_nat(Seq::<u8>::empty()) == 0);
    assert(seq![x].last() == x);
}

/// Reading a byte string as a number is the same as reading its first byte scaled by the
/// rest, plus the rest.
pub proof fn lemma_be_nat_skip(s: Seq<u8>, i: int)
    requires
        0 <= i < s.len(),
    ensures
        be_nat(s.skip(i)) == s[i] * pow256((s.len() - i - 1) as nat) + be_nat(s.skip(i + 1)),
{
    assert(s.skip(i) =~= seq![s[i]] + s.skip(i + 1));
    lemma_be_nat_append(seq![s[i]], s.skip(i + 1));
    lemma_be_nat_single(s[i]);
}

pub proof fn lemma_be_nat_zero(s: Seq<u8>)
    ensures
        (be_nat(s) == 0) <==> (forall|i: int| 0 <= i < s.len() ==> s[i] == 0),
    decreases s.len(),
{
    if s.len() > 0 {
        lemma_be_nat_zero(s.drop_last());
        if be_nat(s) == 0 {
            assert forall|i: int| 0 <= i < s.len() implies s[i] == 0 by {
                if i < s.len() - 1 {
                    assert(s.drop_last()[i] == s[i]);
                }
            }
        } else {
            if forall|i: int| 0 <= i < s.len() ==> s[i] == 0 {
                assert forall|i: int| 0 <= i < s.drop_last().len() implies s.drop_last()[i] == 0 by {
                    assert(s.drop_last()[i] == s[i]);
                }
                assert(s[s.len() - 1] == 0);
            }
        }
    }
}

/// If two byte strings of one length agree up to index `i` and differ first at `i`,
/// the one with the smaller byte there is the smaller number.
pub proof fn lemma_be_nat_lex(s: Seq<u8>, t: Seq<u8>, i: int)
    requires
        s.len() == t.len(),
        0 <= i < s.len(),
        s.take(i) == t.take(i),
        s[i] < t[i],
    ensures
        be_nat(s) < be_nat(t),
{
    let n = s.len();
    let k = (n - i - 1) as nat;
    let p = pow256(k);
    assert(s =~= s.take(i + 1) + s.skip(i + 1));
    assert(t =~= t.take(i + 1) + t.skip(i + 1));
    lemma_be_nat_append(s.take(i + 1), s.skip(i + 1));
    lemma_be_nat_append(t.take(i + 1), t.skip(i + 1));
    lemma_be_nat_bound(s.skip(i + 1));
    assert(s.take(i + 1).drop_last() =~= s.take(i));
    assert(t.take(i + 1).drop_last() =~= t.take(i));
    let xs = be_nat(s.take(i + 1));
    let xt = be_nat(t.take(i + 1));
    assert(xs + 1 <= xt);
    let rs = be_nat(s.skip(i + 1));
    let rt = be_nat(t.skip(i + 1));
    assert(xs * p + rs < xt * p + rt) by (nonlinear_arith)
        requires
            xs + 1 <= xt,
            rs < p,
    ;
}

pub proof fn lemma_dec_value_prefix(s: Seq<u8>, k: int)
    requires
        0 <= k <= s.len(),
        all_digits(s),
    ensures
        dec_value(s.take(k)) <= dec_value(s),
    decreases s.len(),
{
    if k < s.len() {
        assert(all_digits(s.drop_last()));
        assert(s.drop_last().take(k) =~= s.take(k));
        lemma_dec_value_prefix(s.drop_last(), k);
    } else {
        assert(s.take(k) =~= s);
    }
}

/// An unsigned 256-bit integer, most significant byte first.
#[derive(Clone, Copy, Debug)]
pub struct U256 {
    pub bytes: [u8; 32],
}

impl View for U256 {
    type V = Seq<u8>;

    open spec fn view(&self) -> Seq<u8> {
        self.bytes@
    }
}

impl U256 {
    /// The number this value stands for.
    pub open spec fn value(self) -> nat {
        be_nat(self.bytes@)
    }

    pub proof fn lemma_value_bound(self)
        ensures
            self.value() < u256_modulus(),
    {
        lemma_be_nat_bound(self.bytes@);
    }

    /// Builds a value from its 32 big-endian bytes.
    pub fn from_be_bytes(bytes: [u8; 32]) -> (r: U256)
        ensures
            r@ == bytes@,
    {
        U256 { bytes }
    }

    /// Zero.
    pub fn zero() -> (r: U256)
        ensures
            r.value() == 0,
            forall|i: int| 0 <= i < 32 ==> r@[i] == 0,
    {
        let r = U256 { bytes: [0u8; 32] };
        proof {
            assert forall|i: int| 0 <= i < r.bytes@.len() implies r.bytes@[i] == 0 by {}
            lemma_be_nat_zero(r.bytes@);
        }
        r
    }

    /// Whether the value is zero.
    pub fn is_zero(&self) -> (r: bool)
        ensures
            r == (self.value() == 0),
    {
        let mut i: usize = 0;
        while i < 32
            invariant
                i <= 32,
                forall|j: int| 0 <= j < i ==> self.bytes@[j] == 0,
            decreases 32 - i,
        {
            if self.bytes[i] != 0 {
                assert(self.bytes@[i as int] != 0);
                proof {
                    lemma_be_nat_zero(self.bytes@);
                }
                return false;
            }
            i += 1;
        }
        proof {
            lemma_be_nat_zero(self.bytes@);
        }
        true
    }

    /// Whether the two values are the same.
    pub fn equals(&self, other: &U256) -> (r: bool)
        ensures
            r == (self@ == other@),
            r == (self.value() == other.value()),
    {
        let mut i: usize = 0;
        while i < 32
            invariant
                i <= 32,
                self.bytes@.take(i as int) == other.bytes@.take(i as int),
            decreases 32 - i,
        {
            if self.bytes[i] != other.bytes[i] {
                proof {
                    if self.bytes[i as int] < other.bytes[i as int] {
                        lemma_be_nat_lex(self.bytes@, other.bytes@, i as int);
                    } else {
                        lemma_be_nat_lex(other.bytes@, self.bytes@, i as int);
                    }
                }
                return false;
            }
            assert(self.bytes@.take(i + 1) =~= self.bytes@.take(i as int).push(self.bytes@[i as int]));
            assert(other.bytes@.take(i + 1) =~= other.bytes@.take(i as int).push(other.bytes@[i as int]));
            i += 1;
        }
        assert(self.bytes@ =~= self.bytes@.take(32));
        assert(other.bytes@ =~= other.bytes@.take(32));
        true
    }

    /// Whether `self` is smaller than `other`.
    pub fn lt(&self, other: &U256) -> (r: bool)
        ensures
            r == (self.value() < other.value()),
    {
        let mut i: usize = 0;
        while i < 32
            invariant
                i <= 32,
                self.bytes@.take(i as int) == other.bytes@.take(i as int),
            decreases 32 - i,
        {
            if self.bytes[i] != other.bytes[i] {
                proof {
                    if self.bytes[i as int] < other.bytes[i as int] {
                        lemma_be_nat_lex(self.bytes@, other.bytes@, i as int);
                    } else {
                        lemma_be_nat_lex(other.bytes@, self.bytes@, i as int);
                    }
                }
                return self.bytes[i] < other.bytes[i];
            }
            assert(self.bytes@.take(i + 1) =~= self.bytes@.take(i as int).push(self.bytes@[i as int]));
            assert(other.bytes@.take(i + 1) =~= other.bytes@.take(i as int).push(other.bytes@[i as int]));
            i += 1;
        }
        assert(self.bytes@ =~= self.bytes@.take(32));
        assert(other.bytes@ =~= other.bytes@.take(32));
        false
    }

    /// Whether `self` is at most `other`.
    pub fn le(&self, other: &U256) -> (r: bool)
        ensures
            r == (self.value() <= other.value()),
    {
        !other.lt(self)
    }

    /// The smaller of the two values.
    pub fn min(self, other: U256) -> (r: U256)
        ensures
            r.value() == if self.value() <= other.value() { self.value() } else { other.value() },
            r == self || r == other,
    {
        if other.lt(&self) {
            other
        } else {
            self
        }
    }

    /// Division by a small divisor, with the remainder.
    pub fn div_rem_small(&self, d: u64) -> (r: (U256, u64))
        requires
            0 < d <= 0x1_0000_0000,
        ensures
            r.0.value() * d + r.1 == self.value(),
            r.1 < d,
            r.0.value() == self.value() / (d as nat),
            r.1 == self.value() % (d as nat),
    {
        let mut q = [0u8; 32];
        let mut rem: u64 = 0;
        let mut i: usize = 0;
        assert(self.bytes@.take(0) =~= Seq::<u8>::empty());
        assert(q@.take(0) =~= Seq::<u8>::empty());
        assert(be_nat(Seq::<u8>::empty()) == 0);
        while i < 32
            invariant
                i <= 32,
                0 < d <= 0x1_0000_0000,
                rem < d,
                be_nat(self.bytes@.take(i as int)) == d * be_nat(q@.take(i as int)) + rem,
            decreases 32 - i,
        {
            let byte = self.bytes[i];
            let x: u64 = rem * 256 + byte as u64;
            let qi: u64 = x / d;
            let ri: u64 = x % d;
            assert(qi < 256) by (nonlinear_arith)
                requires
                    qi == x / d,
                    x == rem * 256 + byte,
                    rem < d,
                    byte < 256,
                    d > 0,
            ;
            let ghost old_q = q@;
            q[i] = qi as u8;
            proof {
                let a = self.bytes@;
                assert(a.take(i + 1).drop_last() =~= a.take(i as int));
                assert(q@.take(i + 1).drop_last() =~= old_q.take(i as int));
                let big_a = be_nat(a.take(i as int));
                let big_q = be_nat(old_q.take(i as int));
                assert(x == d * qi + ri) by (nonlinear_arith)
                    requires
                        qi == x / d,
                        ri == x % d,
                        d > 0,
                ;
                assert(big_a * 256 + byte == d * (big_q * 256 + qi) + ri) by (nonlinear_arith)
                    requires
                        big_a == d * big_q + rem,
                        x == rem * 256 + byte,
                        x == d * qi + ri,
                ;
            }
            rem = ri;
            i += 1;
        }
        let res = U256 { bytes: q };
        proof {
            assert(self.bytes@.take(32) =~= self.bytes@);
            assert(q@.take(32) =~= q@);
            let v = self.value();
            let qq = res.value();
            assert(qq * d + rem == v) by (nonlinear_arith)
                requires
                    v == d * qq + rem,
            ;
            vstd::arithmetic::div_mod::lemma_fundamental_div_mod_converse(
                v as int,
                d as int,
                qq as int,
                rem as int,
            );
        }
        (res, rem)
    }

    /// `self * m + a`, or `None` when that does not fit in 256 bits.
    pub fn checked_mul_add_small(&self, m: u64, a: u64) -> (r: Option<U256>)
        requires
            m <= 256,
            a < 256,
        ensures
            match r {
                Some(v) => v.value() == self.value() * m + a,
                None => self.value() * m + a >= u256_modulus(),
            },
    {
        let mut res = [0u8; 32];
        let mut carry: u64 = a;
        let mut i: usize = 32;
        proof {
            assert(self.bytes@.skip(32) =~= Seq::<u8>::empty());
            assert(res@.skip(32) =~= Seq::<u8>::empty());
            assert(be_nat(Seq::<u8>::empty()) == 0);
            assert(pow256(0) == 1);
            assert(be_nat(self.bytes@.skip(32)) * m == 0);
            assert(carry * pow256(0) == carry);
        }
        while i > 0
            invariant
                i <= 32,
                m <= 256,
                carry < 256,
                be_nat(self.bytes@.skip(i as int)) * m + a == be_nat(res@.skip(i as int)) + carry
                    * pow256((32 - i) as nat),
            decreases i,
        {
            let j = i - 1;
            let byte = self.bytes[j];
            assert(byte as u64 * m <= 255 * 256) by (nonlinear_arith)
                requires
                    byte < 256,
                    m <= 256,
            ;
            let t: u64 = byte as u64 * m + carry;
            let lo: u64 = t % 256;
            let hi: u64 = t / 256;
            assert(hi < 256) by (nonlinear_arith)
                requires
                    hi == t / 256,
                    t == byte * m + carry,
                    byte < 256,
                    m <= 256,
                    carry < 256,
            ;
            let ghost old_res = res@;
            res[j] = lo as u8;
            proof {
                let s = self.bytes@;
                lemma_be_nat_skip(s, j as int);
                lemma_be_nat_skip(res@, j as int);
                assert(res@.skip(i as int) =~= old_res.skip(i as int));
                let p = pow256((32 - i) as nat);
                assert(pow256((32 - j) as nat) == 256 * p);
                let big_a = be_nat(s.skip(i as int));
                let big_r = be_nat(old_res.skip(i as int));
                assert(t == 256 * hi + lo) by (nonlinear_arith)
                    requires
                        hi == t / 256,
                        lo == t % 256,
                ;
                assert((byte * p + big_a) * m + a == (lo * p + big_r) + hi * (256 * p))
                    by (nonlinear_arith)
                    requires
                        big_a * m + a == big_r + carry * p,
                        t == byte * m + carry,
                        t == 256 * hi + lo,
                ;
            }
            carry = hi;
            i = j;
        }
        proof {
            assert(self.bytes@.skip(0) =~= self.bytes@);
            assert(res@.skip(0) =~= res@);
            lemma_be_nat_bound(res@);
            assert(be_nat(res@) + carry * pow256(32) == self.value() * m + a);
        }
        if carry == 0 {
            let v = U256 { bytes: res };
            assert(v.value() == be_nat(res@));
            assert(carry * pow256(32) == 0);
            assert(v.value() == self.value() * m + a);
            Some(v)
        } else {
            let ghost big_p = pow256(32);
            assert(carry * big_p >= big_p) by (nonlinear_arith)
                requires
                    carry >= 1,
            ;
            None
        }
    }

    /// The decimal digits of the value, in ASCII, without leading zeros.
    pub fn to_decimal(&self) -> (r: Vec<u8>)
        ensures
            r@ == dec_digits(self.value()),
    {
        let ghost v0 = self.value();
        let mut x = *self;
        let mut digits: Vec<u8> = Vec::new();
        loop
            invariant_except_break
                dec_digits(v0) == dec_digits(x.value()) + digits@,
            ensures
                dec_digits(v0) == digits@,
            decreases x.value(),
        {
            let (q, d) = x.div_rem_small(10);
            let c: u8 = (d + 48) as u8;
            digits.insert(0, c);
            if q.is_zero() {
                assert(dec_digits(x.value()) == seq![c]);
                assert(dec_digits(v0) =~= digits@);
                break ;
            }
            assert(dec_digits(x.value()) == dec_digits(q.value()).push(c));
            assert(dec_digits(v0) =~= dec_digits(q.value()) + digits@);
            x = q;
        }
        digits
    }

    /// Parses a string of ASCII decimal digits.
    pub fn from_decimal(s: &[u8]) -> (r: Option<U256>)
        ensures
            match parse_decimal(s@) {
                Some(n) => r matches Some(v) && v.value() == n,
                None => r is None,
            },
    {
        if s.len() == 0 {
            return None;
        }
        let mut acc = U256::zero();
        let mut i: usize = 0;
        while i < s.len()
            invariant
                i <= s@.len(),
                acc.value() == dec_value(s@.take(i as int)),
                forall|j: int| 0 <= j < i ==> 48 <= #[trigger] s@[j] <= 57,
            decreases s@.len() - i,
        {
            let c = s[i];
            if c < 48 || c > 57 {
                return None;
            }
            let next = acc.checked_mul_add_small(10, (c - 48) as u64);
            assert(s@.take(i + 1).drop_last() =~= s@.take(i as int));
            match next {
                Some(v) => {
                    acc = v;
                },
                None => {
                    proof {
                        if all_digits(s@) {
                            lemma_dec_value_prefix(s@, i + 1);
                        }
                    }
                    return None;
                },
            }
            i += 1;
        }
        proof {
            assert(s@.take(s@.len() as int) =~= s@);
            acc.lemma_value_bound();
        }
        Some(acc)
    }
}


/// Printing a number in decimal and reading it back gives the number again.
pub proof fn lemma_dec_digits_value(n: nat)
    ensures
        dec_digits(n).len() > 0,
        all_digits(dec_digits(n)),
        dec_value(dec_digits(n)) == n,
    decreases n,
{
    if n < 10 {
        let s = dec_digits(n);
        assert(s.drop_last() =~= Seq::<u8>::empty());
        assert(dec_value(Seq::<u8>::empty()) == 0);
    } else {
        lemma_dec_digits_value(n / 10);
        let p = dec_digits(n / 10);
        let c = (n % 10 + 48) as u8;
        let s = p.push(c);
        assert(s.drop_last() =~= p);
        assert(s.last() == c);
        assert(all_digits(s)) by {
            assert forall|i: int| 0 <= i < s.len() implies 48 <= #[trigger] s[i] <= 57 by {
                if i < p.len() {
                    assert(s[i] == p[i]);
                }
            }
        }
        vstd::arithmetic::div_mod::lemma_fundamental_div_mod(n as int, 10);
    }
}

/// A value printed in decimal parses back to itself.
pub proof fn lemma_decimal_roundtrip(v: U256)
    ensures
        parse_decimal(dec_digits(v.value())) == Some(v.value()),
{
    lemma_dec_digits_value(v.value());
    v.lemma_value_bound();
}

} // verus!
