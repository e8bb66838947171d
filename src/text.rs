//! Decimal and hexadecimal text.
use vstd::prelude::*;
use vstd::string::*;
use vstd::arithmetic::power::{pow, lemma_pow0, lemma_pow1, lemma_pow_adds, lemma_pow_increases, lemma_pow_multiplies};
use vstd::arithmetic::div_mod::{
    lemma_div_denominator, lemma_fundamental_div_mod_converse, lemma_mod_multiples_vanish,
    lemma_fundamental_div_mod, lemma_mod_bound,
};
use crate::limbs::{limb_base, base_pow, limbs_val, lemma_val_split, lemma_val_first, lemma_val_bounds};
use crate::uint::{FixedWidthUint, width_ok, modulus};

verus! {

/// Value of a hexadecimal digit of either case; -1 for any other character.
pub open spec fn hex_digit_value(c: char) -> int {
    if '0' <= c && c <= '9' {
        c as int - '0' as int
    } else if 'a' <= c && c <= 'f' {
        c as int - 'a' as int + 10
    } else if 'A' <= c && c <= 'F' {
        c as int - 'A' as int + 10
    } else {
        -1
    }
}

/// Whether `c` is a hexadecimal digit.
pub open spec fn is_hex_digit(c: char) -> bool {
    hex_digit_value(c) >= 0
}

/// Whether every character of `s` is a hexadecimal digit.
pub open spec fn all_hex(s: Seq<char>) -> bool {
    forall|i: int| 0 <= i < s.len() ==> is_hex_digit(#[trigger] s[i])
}

/// Value of a string of hexadecimal digits, most significant first.
pub open spec fn hex_value(s: Seq<char>) -> int
    decreases s.len(),
{
    if s.len() == 0 {
        0
    } else {
        hex_value(s.drop_last()) * 16 + hex_digit_value(s.last())
    }
}

/// Why a hexadecimal string was refused.
#[derive(Clone, Copy, Debug, PartialEq, Eq, Structural)]
pub enum FromHexError {
    /// The character at the given position is not a hexadecimal digit.
    InvalidHexCharacter(char, usize),
    /// The digits do not fit the width.
    InvalidHexLength,
}

/// The characters of `value`.
fn chars_of(value: &str) -> (r: Vec<char>)
    ensures
        r@ == value@,
{
    let mut out: Vec<char> = Vec::new();
    for c in it: value.chars()
        invariant
            out@ == it.seq().subrange(0, it.index() as int),
    {
        out.push(c);
    }
    out
}

/// The lowercase hexadecimal digit of `d`, for `d` in `[0, 16)`.
pub open spec fn lower_hex_char(d: int) -> char {
    if d == 0 {
        '0'
    } else if d == 1 {
        '1'
    } else if d == 2 {
        '2'
    } else if d == 3 {
        '3'
    } else if d == 4 {
        '4'
    } else if d == 5 {
        '5'
    } else if d == 6 {
        '6'
    } else if d == 7 {
        '7'
    } else if d == 8 {
        '8'
    } else if d == 9 {
        '9'
    } else if d == 10 {
        'a'
    } else if d == 11 {
        'b'
    } else if d == 12 {
        'c'
    } else if d == 13 {
        'd'
    } else if d == 14 {
        'e'
    } else {
        'f'
    }
}

/// Whether `c` is a digit of lowercase hexadecimal.
pub open spec fn is_lower_hex_digit(c: char) -> bool {
    ('0' <= c && c <= '9') || ('a' <= c && c <= 'f')
}

/// Whether `d` is the shortest lowercase hexadecimal spelling of `n`.
pub open spec fn canonical_hex(d: Seq<char>, n: int) -> bool {
    &&& d.len() >= 1
    &&& forall|i: int| 0 <= i < d.len() ==> is_lower_hex_digit(#[trigger] d[i])
    &&& hex_value(d) == n
    &&& (d[0] != '0' || d.len() == 1)
}

/// Value of a decimal digit; -1 for any other character.
pub open spec fn dec_digit_value(c: char) -> int {
    if '0' <= c && c <= '9' {
        c as int - '0' as int
    } else {
        -1
    }
}

/// Value of a string of decimal digits, most significant first.
pub open spec fn dec_value(s: Seq<char>) -> int
    decreases s.len(),
{
    if s.len() == 0 {
        0
    } else {
        dec_value(s.drop_last()) * 10 + dec_digit_value(s.last())
    }
}

/// Whether `d` is the shortest decimal spelling of `n`.
pub open spec fn canonical_dec(d: Seq<char>, n: int) -> bool {
    &&& d.len() >= 1
    &&& forall|i: int| 0 <= i < d.len() ==> '0' <= #[trigger] d[i] && d[i] <= '9'
    &&& dec_value(d) == n
    &&& (d[0] != '0' || d.len() == 1)
}

/// The digit character of `d` as a one-character string.
fn digit_str(d: u64) -> (r: &'static str)
    requires
        d < 16,
    ensures
        r@ == seq![lower_hex_char(d as int)],
        hex_digit_value(lower_hex_char(d as int)) == d,
        is_lower_hex_digit(lower_hex_char(d as int)),
        d < 10 ==> dec_digit_value(lower_hex_char(d as int)) == d,
        d < 10 ==> '0' <= lower_hex_char(d as int) <= '9',
        (lower_hex_char(d as int) == '0') == (d == 0),
{
    if d == 0 {
        proof {
            reveal_strlit("0");
        }
        "0"
    } else if d == 1 {
        proof {
            reveal_strlit("1");
        }
        "1"
    } else if d == 2 {
        proof {
            reveal_strlit("2");
        }
        "2"
    } else if d == 3 {
        proof {
            reveal_strlit("3");
        }
        "3"
    } else if d == 4 {
        proof {
            reveal_strlit("4");
        }
        "4"
    } else if d == 5 {
        proof {
            reveal_strlit("5");
        }
        "5"
    } else if d == 6 {
        proof {
            reveal_strlit("6");
        }
        "6"
    } else if d == 7 {
        proof {
            reveal_strlit("7");
        }
        "7"
    } else if d == 8 {
        proof {
            reveal_strlit("8");
        }
        "8"
    } else if d == 9 {
        proof {
            reveal_strlit("9");
        }
        "9"
    } else if d == 10 {
        proof {
            reveal_strlit("a");
        }
        "a"
    } else if d == 11 {
        proof {
            reveal_strlit("b");
        }
        "b"
    } else if d == 12 {
        proof {
            reveal_strlit("c");
        }
        "c"
    } else if d == 13 {
        proof {
            reveal_strlit("d");
        }
        "d"
    } else if d == 14 {
        proof {
            reveal_strlit("e");
        }
        "e"
    } else {
        proof {
            reveal_strlit("f");
        }
        "f"
    }
}

/// The value of a hexadecimal digit, if `c` is one.
fn hex_digit(c: char) -> (r: Option<u64>)
    ensures
        r is Some <==> is_hex_digit(c),
        r is Some ==> r->0 == hex_digit_value(c) && r->0 < 16,
{
    if '0' <= c && c <= '9' {
        Some((c as u32 - '0' as u32) as u64)
    } else if 'a' <= c && c <= 'f' {
        Some((c as u32 - 'a' as u32 + 10) as u64)
    } else if 'A' <= c && c <= 'F' {
        Some((c as u32 - 'A' as u32 + 10) as u64)
    } else {
        None
    }
}

/// A string of `k` hexadecimal digits is below `16^k`.
pub proof fn lemma_hex_bounds(s: Seq<char>)
    requires
        all_hex(s),
    ensures
        0 <= hex_value(s) < pow(16, s.len()),
    decreases s.len(),
{
    lemma_pow0(16);
    if s.len() > 0 {
        assert(all_hex(s.drop_last())) by {
            assert forall|i: int| 0 <= i < s.drop_last().len() implies is_hex_digit(
                #[trigger] s.drop_last()[i],
            ) by {
                assert(s.drop_last()[i] == s[i]);
            }
        }
        lemma_hex_bounds(s.drop_last());
        assert(is_hex_digit(s[s.len() - 1]));
        lemma_pow_adds(16, (s.len() - 1) as nat, 1);
        lemma_pow1(16);
    }
}

/// `16^(16 n) == 2^(64 n)`.
pub proof fn lemma_nibbles_limbs(n: nat)
    ensures
        pow(16, 16 * n) == modulus(n as usize) || n > usize::MAX,
        pow(16, 16) == limb_base(),
{
    vstd::arithmetic::power2::lemma2_to64();
    vstd::arithmetic::power2::lemma_pow2(4);
    vstd::arithmetic::power2::lemma_pow2(64);
    lemma_pow_multiplies(2, 4, 16);
    lemma_pow_multiplies(16, 16, n);
}

impl<const N: usize> FixedWidthUint<N> {
    /// Parses hexadecimal digits of either case, most significant first; an
    /// odd number of digits reads as if led by one more zero.
    pub fn from_hex_str(value: &str) -> (r: Result<Self, FromHexError>)
        requires
            width_ok(N),
        ensures
            r is Ok <==> all_hex(value@) && value@.len() <= 16 * N,
            r is Ok ==> r->Ok_0@ == hex_value(value@),
            all_hex(value@) && value@.len() > 16 * N ==> r is Err && r->Err_0
                == FromHexError::InvalidHexLength,
            !all_hex(value@) ==> r is Err && r->Err_0 is InvalidHexCharacter && ({
                let i = r->Err_0->InvalidHexCharacter_1 as int;
                &&& 0 <= i < value@.len()
                &&& r->Err_0->InvalidHexCharacter_0 == value@[i]
                &&& !is_hex_digit(value@[i])
                &&& all_hex(value@.subrange(0, i))
            }),
    {
        let cs = chars_of(value);
        let mut i: usize = 0;
        while i < cs.len()
            invariant
                cs@ == value@,
                i <= cs@.len(),
                all_hex(cs@.subrange(0, i as int)),
            decreases cs@.len() - i,
        {
            let c = cs[i];
            if hex_digit(c).is_none() {
                return Err(FromHexError::InvalidHexCharacter(c, i));
            }
            proof {
                assert forall|k: int| 0 <= k < i + 1 implies is_hex_digit(
                    #[trigger] cs@.subrange(0, i + 1)[k],
                ) by {
                    if k < i {
                        assert(cs@.subrange(0, i + 1)[k] == cs@.subrange(0, i as int)[k]);
                    }
                }
            }
            i += 1;
        }
        proof {
            assert(cs@.subrange(0, cs@.len() as int) =~= cs@);
        }
        if cs.len() > 16 * N {
            return Err(FromHexError::InvalidHexLength);
        }
        let sixteen = Self::from_u64(16);
        let mut acc = Self::zero();
        let mut k: usize = 0;
        proof {
            lemma_nibbles_limbs(N as nat);
            lemma_pow0(16);
            assert(cs@.subrange(0, 0) =~= Seq::<char>::empty());
        }
        while k < cs.len()
            invariant
                width_ok(N),
                cs@ == value@,
                all_hex(cs@),
                cs@.len() <= 16 * N,
                pow(16, 16 * N as nat) == modulus(N),
                sixteen@ == 16,
                k <= cs@.len(),
                acc@ == hex_value(cs@.subrange(0, k as int)),
            decreases cs@.len() - k,
        {
            let d = match hex_digit(cs[k]) {
                Some(d) => d,
                None => 0,
            };
            proof {
                assert(is_hex_digit(cs@[k as int]));
                let pre = cs@.subrange(0, k as int);
                let next = cs@.subrange(0, k + 1);
                assert(next.drop_last() =~= pre);
                assert(all_hex(next)) by {
                    assert forall|t: int| 0 <= t < next.len() implies is_hex_digit(#[trigger] next[t]) by {
                        assert(next[t] == cs@[t]);
                    }
                }
                lemma_hex_bounds(next);
                lemma_pow_increases(16, (k + 1) as nat, 16 * N as nat);
            }
            acc = acc.mul(sixteen).add(Self::from_u64(d));
            k += 1;
        }
        proof {
            assert(cs@.subrange(0, cs@.len() as int) =~= cs@);
        }
        Ok(acc)
    }
}

/// Hexadecimal digit `j` of limb `k` is digit `16 k + j` of the whole value.
pub proof fn lemma_nibble_of_limb(s: Seq<u64>, k: int, j: nat)
    requires
        0 <= k < s.len(),
        j < 16,
    ensures
        (limbs_val(s) / pow(16, (16 * k + j) as nat)) % 16 == ((s[k] as int) / pow(16, j)) % 16,
{
    let pk = base_pow(k as nat);
    let pj = pow(16, j);
    let rest = limbs_val(s.subrange(k + 1, s.len() as int));
    lemma_val_split(s, k);
    lemma_val_bounds(s.subrange(0, k));
    lemma_val_bounds(s.subrange(k, s.len() as int));
    crate::limbs::lemma_base_pow_positive(k as nat);
    let upper = limbs_val(s.subrange(k, s.len() as int));
    assert(pk * upper == upper * pk) by (nonlinear_arith);
    lemma_fundamental_div_mod_converse(limbs_val(s), pk, upper, limbs_val(s.subrange(0, k)));
    // 16^(16 k + j) == (2^64)^k * 16^j
    lemma_nibbles_limbs(k as nat);
    vstd::arithmetic::power::lemma_pow_multiplies(16, 16, k as nat);
    vstd::arithmetic::power::lemma_pow_multiplies(limb_base(), 1, k as nat);
    lemma_pow_adds(16, (16 * k) as nat, j);
    assert(pow(16, (16 * k) as nat) == pk) by {
        assert(pow(pow(16, 16), k as nat) == pow(16, (16 * k) as nat));
    }
    vstd::arithmetic::power::lemma_pow_positive(16, j);
    lemma_div_denominator(limbs_val(s), pk, pj);
    // upper == s[k] + 2^64 * rest, and 2^64 == 16^j * 16^(16-j)
    let su = s.subrange(k, s.len() as int);
    lemma_val_first(su);
    assert(su.subrange(1, su.len() as int) =~= s.subrange(k + 1, s.len() as int));
    lemma_pow_adds(16, j, (16 - j) as nat);
    lemma_pow_adds(16, 1, (15 - j) as nat);
    lemma_pow1(16);
    let c = pow(16, (15 - j) as nat);
    assert(upper == s[k] + pj * (16 * c * rest)) by (nonlinear_arith)
        requires
            upper == s[k] + limb_base() * rest,
            limb_base() == pj * pow(16, (16 - j) as nat),
            pow(16, (16 - j) as nat) == 16 * c,
    ;
    vstd::arithmetic::div_mod::lemma_hoist_over_denominator(s[k] as int, 16 * c * rest, pj as nat);
    assert((16 * c * rest) * pj == pj * (16 * c * rest)) by (nonlinear_arith);
    lemma_mod_multiples_vanish(c * rest, (s[k] as int) / pj, 16);
    assert(16 * c * rest == 16 * (c * rest)) by (nonlinear_arith);
}

/// Value of decimal digits stored least significant first.
pub open spec fn digits_le_value(s: Seq<u64>) -> int
    decreases s.len(),
{
    if s.len() == 0 {
        0
    } else {
        digits_le_value(s.drop_last()) + s.last() * pow(10, (s.len() - 1) as nat)
    }
}

/// The lowest digit, and the rest one place down.
proof fn lemma_digits_first(s: Seq<u64>)
    requires
        s.len() >= 1,
    ensures
        digits_le_value(s) == s[0] + 10 * digits_le_value(s.drop_first()),
    decreases s.len(),
{
    lemma_pow0(10);
    if s.len() == 1 {
        assert(s.drop_first() =~= Seq::<u64>::empty());
        assert(s.drop_last() =~= Seq::<u64>::empty());
    } else {
        let n = s.len();
        lemma_digits_first(s.drop_last());
        assert(s.drop_last().drop_first() =~= s.drop_first().drop_last());
        assert(s.drop_last()[0] == s[0]);
        lemma_pow_adds(10, 1, (n - 2) as nat);
        lemma_pow1(10);
        assert(10 * (s.last() * pow(10, (n - 2) as nat)) == s.last() * pow(10, (n - 1) as nat))
            by (nonlinear_arith)
            requires
                pow(10, (n - 1) as nat) == 10 * pow(10, (n - 2) as nat),
        ;
    }
}

/// `2^(4 m) == 16^m`.
proof fn lemma_pow2_nibbles(m: nat)
    ensures
        vstd::arithmetic::power2::pow2(4 * m) == pow(16, m),
{
    vstd::arithmetic::power2::lemma2_to64();
    vstd::arithmetic::power2::lemma_pow2(4);
    vstd::arithmetic::power2::lemma_pow2(4 * m);
    lemma_pow_multiplies(2, 4, m);
}

impl<const N: usize> FixedWidthUint<N> {
    /// Lowercase hexadecimal without leading zeros (zero is `0`), after `0x`
    /// when `alternate` is set.
    pub fn to_hex_string(&self, alternate: bool) -> (r: String)
        requires
            width_ok(N),
        ensures
            alternate ==> r@.len() >= 2 && r@.subrange(0, 2) == seq!['0', 'x'] && canonical_hex(
                r@.subrange(2, r@.len() as int),
                self@,
            ),
            !alternate ==> canonical_hex(r@, self@),
    {
        let mut out = String::new();
        if alternate {
            proof {
                reveal_strlit("0x");
            }
            out.append("0x");
        }
        let ghost pre = out@;
        proof {
            assert(alternate ==> pre =~= seq!['0', 'x']);
            assert(!alternate ==> pre =~= Seq::<char>::empty());
        }
        if self.is_zero() {
            let z = digit_str(0);
            out.append(z);
            proof {
                assert(out@.subrange(pre.len() as int, out@.len() as int) =~= seq!['0']);
                assert(out@.subrange(0, pre.len() as int) =~= pre);
                assert(seq!['0'].drop_last() =~= Seq::<char>::empty());
                assert(hex_value(Seq::<char>::empty()) == 0);
                assert(seq!['0'].last() == '0');
                assert(hex_value(seq!['0']) == 0);
                assert(!alternate ==> out@ =~= seq!['0']);
            }
            return out;
        }
        let mut latch = false;
        let ghost mut digits: Seq<char> = Seq::empty();
        let mut i: usize = 0;
        proof {
            lemma_nibbles_limbs(N as nat);
            self.lemma_range();
            vstd::arithmetic::power::lemma_pow_positive(16, (16 * N) as nat);
            lemma_fundamental_div_mod_converse(self@, pow(16, (16 * N) as nat), 0, self@);
        }
        while i < N
            invariant
                width_ok(N),
                i <= N,
                self@ != 0,
                out@ == pre + digits,
                pre.len() <= 2,
                !latch ==> digits.len() == 0 && self@ / pow(16, (16 * (N - i)) as nat) == 0,
                latch ==> canonical_hex(digits, self@ / pow(16, (16 * (N - i)) as nat)),
                latch ==> digits[0] != '0',
            decreases N - i,
        {
            let ch = self.0[N - 1 - i];
            let mut x: usize = 0;
            while x < 16
                invariant
                    width_ok(N),
                    i < N,
                    x <= 16,
                    ch == self.0@[N - 1 - i],
                    out@ == pre + digits,
                    pre.len() <= 2,
                    !latch ==> digits.len() == 0 && self@ / pow(16, (16 * (N - i) - x) as nat)
                        == 0,
                    latch ==> canonical_hex(digits, self@ / pow(16, (16 * (N - i) - x) as nat)),
                    latch ==> digits[0] != '0',
                decreases 16 - x,
            {
                let shift = (4 * (15 - x)) as u64;
                let nibble = (ch >> shift) % 16;
                let ghost e = (16 * (N - i) - x - 1) as nat;
                proof {
                    self.lemma_range();
                    vstd::bits::lemma_u64_shr_is_div(ch, shift);
                    lemma_pow2_nibbles((15 - x) as nat);
                    lemma_nibble_of_limb(self.0@, N - 1 - i, (15 - x) as nat);
                    assert(16 * (N - 1 - i) + (15 - x) == e);
                    vstd::arithmetic::power::lemma_pow_positive(16, e);
                    lemma_pow_adds(16, e, 1);
                    lemma_pow1(16);
                    lemma_div_denominator(self@, pow(16, e), 16);
                    lemma_fundamental_div_mod(self@ / pow(16, e), 16);
                    self.lemma_range();
                    vstd::arithmetic::div_mod::lemma_div_pos_is_pos(self@, pow(16, e));
                }
                let ghost old_digits = digits;
                if latch || nibble != 0 {
                    let ds = digit_str(nibble);
                    out.append(ds);
                    proof {
                        digits = digits.push(lower_hex_char(nibble as int));
                        assert(out@ =~= pre + digits);
                        assert(digits.drop_last() =~= old_digits);
                        if !latch {
                            assert(old_digits =~= Seq::<char>::empty());
                            assert(hex_value(Seq::<char>::empty()) == 0);
                        }
                        assert forall|t: int| 0 <= t < digits.len() implies is_lower_hex_digit(
                            #[trigger] digits[t],
                        ) by {
                            if t < old_digits.len() {
                                assert(digits[t] == old_digits[t]);
                            }
                        }
                        assert(digits[0] != '0' || digits.len() == 1) by {
                            if old_digits.len() > 0 {
                                assert(digits[0] == old_digits[0]);
                            }
                        }
                    }
                    latch = true;
                }
                x += 1;
            }
            i += 1;
        }
        proof {
            lemma_pow0(16);
            assert(out@.subrange(0, pre.len() as int) =~= pre);
            assert(out@.subrange(pre.len() as int, out@.len() as int) =~= digits);
            assert(!alternate ==> out@ =~= digits);
        }
        out
    }

    /// Decimal without leading zeros (zero is `0`).
    pub fn to_dec_string(&self) -> (r: String)
        requires
            width_ok(N),
        ensures
            canonical_dec(r@, self@),
    {
        let mut out = String::new();
        if self.is_zero() {
            let z = digit_str(0);
            out.append(z);
            proof {
                assert(out@ =~= seq!['0']);
                assert(seq!['0'].drop_last() =~= Seq::<char>::empty());
                assert(dec_value(Seq::<char>::empty()) == 0);
                assert(seq!['0'].last() == '0');
                assert(dec_value(seq!['0']) == 0);
            }
            return out;
        }
        let ten = Self::from_u64(10);
        let mut digs: Vec<u64> = Vec::new();
        let mut current = *self;
        proof {
            lemma_pow0(10);
        }
        while !current.is_zero()
            invariant
                width_ok(N),
                ten@ == 10,
                self@ == current@ * pow(10, digs@.len()) + digits_le_value(digs@),
                forall|t: int| 0 <= t < digs@.len() ==> #[trigger] digs@[t] < 10,
                digs@.len() == 0 ==> current@ != 0,
                digs@.len() > 0 && current@ == 0 ==> digs@.last() != 0,
            decreases current@,
        {
            let (q, r) = current.div_mod(ten);
            proof {
                current.lemma_range();
                vstd::arithmetic::div_mod::lemma_mod_bound(current@, 10);
                crate::limbs::lemma_base_pow_succ(0);
                lemma_pow0(limb_base());
                crate::limbs::lemma_val_top_zero(r.0@, 1);
                crate::limbs::lemma_val_short(r.0@.subrange(0, 1));
                lemma_fundamental_div_mod(current@, 10);
            }
            let d = r.0[0];
            let ghost old_digs = digs@;
            digs.push(d);
            proof {
                assert(digs@.drop_last() =~= old_digs);
                lemma_pow_adds(10, old_digs.len(), 1);
                lemma_pow1(10);
                let p = pow(10, old_digs.len());
                assert(current@ * p == q@ * (p * 10) + d * p) by (nonlinear_arith)
                    requires
                        current@ == 10 * q@ + d,
                ;
                if q@ == 0 {
                    assert(d == current@);
                }
                vstd::arithmetic::div_mod::lemma_div_pos_is_pos(current@, 10);
            }
            current = q;
        }
        let len = digs.len();
        let ghost mut text: Seq<char> = Seq::empty();
        let mut j: usize = len;
        proof {
            assert(digs@.subrange(len as int, len as int) =~= Seq::<u64>::empty());
            assert(self@ == digits_le_value(digs@)) by (nonlinear_arith)
                requires
                    self@ == current@ * pow(10, digs@.len()) + digits_le_value(digs@),
                    current@ == 0,
            ;
        }
        while j > 0
            invariant
                j <= len == digs@.len(),
                len > 0,
                digs@.last() != 0,
                forall|t: int| 0 <= t < digs@.len() ==> #[trigger] digs@[t] < 10,
                out@ == text,
                text.len() == len - j,
                forall|t: int| 0 <= t < text.len() ==> '0' <= #[trigger] text[t] && text[t] <= '9',
                text.len() > 0 ==> text[0] != '0',
                dec_value(text) == digits_le_value(digs@.subrange(j as int, len as int)),
            decreases j,
        {
            j -= 1;
            let d = digs[j];
            let ds = digit_str(d);
            let ghost old_text = text;
            out.append(ds);
            proof {
                text = text.push(lower_hex_char(d as int));
                assert(out@ =~= text);
                assert(text.drop_last() =~= old_text);
                let sub = digs@.subrange(j as int, len as int);
                lemma_digits_first(sub);
                assert(sub.drop_first() =~= digs@.subrange(j + 1, len as int));
                assert forall|t: int| 0 <= t < text.len() implies '0' <= #[trigger] text[t]
                    && text[t] <= '9' by {
                    if t < old_text.len() {
                        assert(text[t] == old_text[t]);
                    }
                }
                if old_text.len() > 0 {
                    assert(text[0] == old_text[0]);
                } else {
                    assert(j == len - 1);
                }
            }
        }
        proof {
            assert(digs@.subrange(0, len as int) =~= digs@);
        }
        out
    }
}

} // verus!
