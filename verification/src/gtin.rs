//! GTIN identifiers: validation, numeric encoding, checksum and construction.
//!
//! A package identifier is a 13-digit string that begins with the fixed
//! national prefix `7680`.  Internally the library carries it as a `u64`,
//! which preserves the lexicographic order of the digit strings.

use vstd::prelude::*;
use vstd::string::StrSliceExecFns;
use crate::text::chars_to_string;

verus! {

/// Smallest numeric value of a valid identifier (13 digits, prefix 7680).
pub const GTIN_MIN: u64 = 7_680_000_000_000;
/// Largest numeric value of a valid identifier.
pub const GTIN_MAX: u64 = 7_680_999_999_999;

pub open spec fn is_digit(c: char) -> bool {
    48 <= c as u32 && c as u32 <= 57
}

pub open spec fn digit_val(c: char) -> nat {
    (c as u32 - 48) as nat
}

pub open spec fn digit_char(d: int) -> char {
    ((48 + d) as u8) as char
}

pub open spec fn all_digits(s: Seq<char>) -> bool {
    forall|i: int| 0 <= i < s.len() ==> is_digit(#[trigger] s[i])
}

/// The numeric value of a digit string, most significant digit first.
pub open spec fn chars_value(s: Seq<char>) -> nat
    decreases s.len(),
{
    if s.len() == 0 {
        0
    } else {
        chars_value(s.drop_last()) * 10 + digit_val(s.last())
    }
}

pub open spec fn pow10(n: nat) -> nat
    decreases n,
{
    if n == 0 {
        1
    } else {
        10 * pow10((n - 1) as nat)
    }
}

/// A valid identifier: exactly 13 digits, beginning with the fixed prefix.
pub open spec fn valid_gtin(s: Seq<char>) -> bool {
    &&& s.len() == 13
    &&& all_digits(s)
    &&& s[0] == '7'
    &&& s[1] == '6'
    &&& s[2] == '8'
    &&& s[3] == '0'
}

pub open spec fn gtin_in_range(g: u64) -> bool {
    GTIN_MIN <= g <= GTIN_MAX
}

/// The 13-digit decimal rendering of a numeric identifier.
pub open spec fn gtin_digits(g: u64) -> Seq<char> {
    Seq::new(13, |i: int| digit_char(((g as nat / pow10((12 - i) as nat)) % 10) as int))
}

pub proof fn lemma_chars_value_bound(s: Seq<char>)
    requires
        all_digits(s),
    ensures
        chars_value(s) < pow10(s.len()),
    decreases s.len(),
{
    if s.len() > 0 {
        assert(all_digits(s.drop_last())) by {
            assert(forall|i: int|
                0 <= i < s.len() - 1 ==> #[trigger] s.drop_last()[i] == s[i]);
        }
        lemma_chars_value_bound(s.drop_last());
        assert(is_digit(s.last()));
        assert(digit_val(s.last()) <= 9);
        assert(chars_value(s.drop_last()) * 10 + 9 < pow10(s.len())) by {
            assert(pow10(s.len()) == 10 * pow10((s.len() - 1) as nat));
            assert(chars_value(s.drop_last()) <= pow10((s.len() - 1) as nat) - 1);
            assert(chars_value(s.drop_last()) * 10 <= (pow10((s.len() - 1) as nat) - 1) * 10)
                by (nonlinear_arith)
                requires
                    chars_value(s.drop_last()) <= pow10((s.len() - 1) as nat) - 1,
            ;
        }
    }
}

pub proof fn lemma_chars_value_append(a: Seq<char>, b: Seq<char>)
    ensures
        chars_value(a + b) == chars_value(a) * pow10(b.len()) + chars_value(b),
    decreases b.len(),
{
    if b.len() == 0 {
        assert(a + b =~= a);
        assert(chars_value(a) * pow10(0) == chars_value(a) * 1);
    } else {
        lemma_chars_value_append(a, b.drop_last());
        assert((a + b).drop_last() =~= a + b.drop_last());
        assert((a + b).last() == b.last());
        let va = chars_value(a);
        let vb1 = chars_value(b.drop_last());
        let p1 = pow10((b.len() - 1) as nat);
        assert(chars_value(a + b) == (va * p1 + vb1) * 10 + digit_val(b.last()));
        assert((va * p1 + vb1) * 10 == va * (p1 * 10) + vb1 * 10) by (nonlinear_arith);
        assert(pow10(b.len()) == 10 * p1);
        assert(va * (p1 * 10) == va * pow10(b.len()));
    }
}

/// A valid digit string denotes a number in the identifier range.
pub proof fn lemma_valid_gtin_range(s: Seq<char>)
    requires
        valid_gtin(s),
    ensures
        gtin_in_range(chars_value(s) as u64),
        chars_value(s) < pow10(13),
{
    let a = s.subrange(0, 4);
    let b = s.subrange(4, 13);
    assert(s =~= a + b);
    lemma_chars_value_append(a, b);
    assert(all_digits(b)) by {
        assert(forall|i: int| 0 <= i < b.len() ==> #[trigger] b[i] == s[i + 4]);
    }
    lemma_chars_value_bound(b);
    lemma_chars_value_bound(s);
    lemma_pow10_values();
    assert(chars_value(a) == 7680) by {
        let a3 = a.drop_last();
        let a2 = a3.drop_last();
        let a1 = a2.drop_last();
        let a0 = a1.drop_last();
        assert(a.last() == '0' && a3.last() == '8' && a2.last() == '6' && a1.last() == '7');
        assert(a0.len() == 0);
        assert(chars_value(a0) == 0);
        assert(chars_value(a1) == 7);
        assert(chars_value(a2) == 76);
        assert(chars_value(a3) == 768);
    }
    assert(chars_value(s) == 7680 * pow10(9) + chars_value(b));
    assert(chars_value(b) < 1_000_000_000);
}

/// Parse a string as a package identifier; `Some` exactly on valid strings.
pub fn parse_gtin(s: &str) -> (r: Option<u64>)
    ensures
        r.is_some() == valid_gtin(s@),
        r matches Some(g) ==> g == chars_value(s@) && gtin_in_range(g),
{
    let n: usize = s.unicode_len();
    if n != 13 {
        return None;
    }
    if !(s.get_char(0) == '7' && s.get_char(1) == '6' && s.get_char(2) == '8' && s.get_char(3)
        == '0') {
        return None;
    }
    let mut acc: u64 = 0;
    let mut i: usize = 0;
    while i < 13
        invariant
            i <= 13,
            s@.len() == 13,
            all_digits(s@.subrange(0, i as int)),
            acc == chars_value(s@.subrange(0, i as int)),
            acc < pow10(i as nat),
        decreases 13 - i,
    {
        let c = s.get_char(i);
        let u = c as u32;
        if !(48 <= u && u <= 57) {
            assert(!is_digit(s@[i as int]));
            return None;
        }
        proof {
            lemma_pow10_values();
            lemma_pow10_mono(i as nat, 13);
            assert(s@.subrange(0, i + 1).drop_last() =~= s@.subrange(0, i as int));
        }
        acc = acc * 10 + ((u - 48) as u64);
        i = i + 1;
        proof {
            lemma_chars_value_bound(s@.subrange(0, i as int));
        }
    }
    proof {
        assert(s@.subrange(0, 13) =~= s@);
        lemma_valid_gtin_range(s@);
    }
    Some(acc)
}

pub proof fn lemma_pow10_values()
    ensures
        pow10(0) == 1,
        pow10(1) == 10,
        pow10(2) == 100,
        pow10(3) == 1_000,
        pow10(4) == 10_000,
        pow10(8) == 100_000_000,
        pow10(9) == 1_000_000_000,
        pow10(10) == 10_000_000_000,
        pow10(11) == 100_000_000_000,
        pow10(12) == 1_000_000_000_000,
        pow10(13) == 10_000_000_000_000,
        pow10(14) == 100_000_000_000_000,
        pow10(15) == 1_000_000_000_000_000,
{
    reveal_with_fuel(pow10, 16);
}

pub proof fn lemma_pow10_mono(a: nat, b: nat)
    requires
        a <= b,
    ensures
        pow10(a) <= pow10(b),
    decreases b,
{
    if a < b {
        lemma_pow10_mono(a, (b - 1) as nat);
    }
}

/// Render a numeric identifier as its 13-digit decimal string.
pub fn gtin_to_string(g: u64) -> (r: String)
    requires
        g < 10_000_000_000_000,
    ensures
        r@ == gtin_digits(g),
        r@.len() == 13,
{
    let mut out: Vec<char> = Vec::new();
    let mut i: usize = 0;
    let mut divisor: u64 = 1_000_000_000_000;
    proof {
        lemma_pow10_values();
    }
    while i < 13
        invariant
            i <= 13,
            g < 10_000_000_000_000,
            i < 13 ==> divisor == pow10((12 - i) as nat),
            out@ =~= gtin_digits(g).subrange(0, i as int),
        decreases 13 - i,
    {
        proof {
            assert(divisor > 0) by {
                lemma_pow10_pos((12 - i) as nat);
            }
        }
        let d: u64 = (g / divisor) % 10;
        let c: char = ((48 + d) as u8) as char;
        out.push(c);
        proof {
            assert(c == gtin_digits(g)[i as int]);
            assert(out@ =~= gtin_digits(g).subrange(0, i + 1));
        }
        if i < 12 {
            proof {
                assert(pow10((12 - i) as nat) == 10 * pow10((11 - i) as nat));
            }
            divisor = divisor / 10;
        }
        i = i + 1;
    }
    proof {
        assert(gtin_digits(g).subrange(0, 13) =~= gtin_digits(g));
    }
    chars_to_string(&out)
}

pub proof fn lemma_pow10_pos(n: nat)
    ensures
        pow10(n) >= 1,
    decreases n,
{
    if n > 0 {
        lemma_pow10_pos((n - 1) as nat);
    }
}

/// Every identifier in the numeric range renders to a valid digit string.
pub proof fn lemma_gtin_digits_valid(g: u64)
    requires
        gtin_in_range(g),
    ensures
        valid_gtin(gtin_digits(g)),
{
    let s = gtin_digits(g);
    lemma_pow10_values();
    assert forall|i: int| 0 <= i < 13 implies is_digit(#[trigger] s[i]) by {
        let d = ((g as nat / pow10((12 - i) as nat)) % 10) as int;
        assert(0 <= d <= 9);
        assert(s[i] == digit_char(d));
        assert(is_digit(digit_char(d)));
    }
    assert(g as nat / pow10(12) == 7);
    assert(s[0] == digit_char(7));
    assert(digit_char(7) == '7');
    assert(g as nat / pow10(11) == 76);
    assert(s[1] == digit_char((76int) % 10));
    assert(digit_char(6) == '6');
    assert(g as nat / pow10(10) == 768);
    assert(s[2] == digit_char((768int) % 10));
    assert(digit_char(8) == '8');
    assert(g as nat / pow10(9) == 7680);
    assert(s[3] == digit_char((7680int) % 10));
    assert(digit_char(0) == '0');
}

/// Digit value of a character, 0 for non-digits.
pub open spec fn digit_val0(c: char) -> nat {
    if is_digit(c) {
        digit_val(c)
    } else {
        0
    }
}

/// The checksum weight of the digit at position `i`: odd positions triple.
pub open spec fn checksum_weight(i: int) -> nat {
    if i % 2 == 0 {
        1
    } else {
        3
    }
}

/// Weighted digit sum over the first `i` characters.
pub open spec fn weighted_sum(s: Seq<char>) -> nat
    decreases s.len(),
{
    if s.len() == 0 {
        0
    } else {
        weighted_sum(s.drop_last()) + checksum_weight(s.len() - 1) * digit_val0(s.last())
    }
}

/// The check digit of a 12-character base: `'X'` when the length is wrong.
pub open spec fn gtin_checksum_spec(s: Seq<char>) -> char {
    if s.len() != 12 {
        'X'
    } else {
        digit_char((10 - (weighted_sum(s) % 10)) % 10)
    }
}

pub proof fn lemma_weighted_sum_bound(s: Seq<char>)
    ensures
        weighted_sum(s) <= 27 * s.len(),
    decreases s.len(),
{
    if s.len() > 0 {
        lemma_weighted_sum_bound(s.drop_last());
        assert(digit_val0(s.last()) <= 9);
        assert(checksum_weight(s.len() - 1) * digit_val0(s.last()) <= 27) by (nonlinear_arith)
            requires
                digit_val0(s.last()) <= 9,
                checksum_weight(s.len() - 1) <= 3,
        ;
    }
}

/// The check digit over a character vector.
fn checksum_of_chars(v: &Vec<char>) -> (r: char)
    ensures
        r == gtin_checksum_spec(v@),
{
    let n = v.len();
    if n != 12 {
        return 'X';
    }
    let mut sum: u32 = 0;
    let mut i: usize = 0;
    while i < 12
        invariant
            i <= 12,
            n == 12,
            v@.len() == 12,
            sum == weighted_sum(v@.subrange(0, i as int)),
            sum <= 27 * i,
        decreases 12 - i,
    {
        let c = v[i];
        let u = c as u32;
        let d: u32 = if 48 <= u && u <= 57 {
            u - 48
        } else {
            0
        };
        let w: u32 = if i % 2 == 0 {
            1
        } else {
            3
        };
        proof {
            let pre = v@.subrange(0, i + 1);
            assert(pre.drop_last() =~= v@.subrange(0, i as int));
            assert(pre.last() == c);
            assert(d == digit_val0(c));
            assert(w == checksum_weight(i as int));
        }
        sum = sum + w * d;
        i = i + 1;
    }
    proof {
        assert(v@.subrange(0, 12) =~= v@);
    }
    let check: u32 = (10 - (sum % 10)) % 10;
    ((48 + check) as u8) as char
}

/// Check digit for a 12-character GTIN base (`'X'` on wrong input length).
pub fn calculate_gtin_checksum(base12: &str) -> (r: char)
    ensures
        r == gtin_checksum_spec(base12@),
{
    let v = crate::text::str_chars(base12);
    checksum_of_chars(&v)
}

/// The digits of a string, in order, everything else dropped.
pub open spec fn digits_of(s: Seq<char>) -> Seq<char>
    decreases s.len(),
{
    if s.len() == 0 {
        Seq::empty()
    } else if is_digit(s.last()) {
        digits_of(s.drop_last()).push(s.last())
    } else {
        digits_of(s.drop_last())
    }
}

/// At most the first `k` elements of a sequence.
pub open spec fn take_at_most(s: Seq<char>, k: int) -> Seq<char> {
    if s.len() <= k {
        s
    } else {
        s.subrange(0, k)
    }
}

/// Left-pad with `'0'` to width `k` (longer input is kept unchanged).
pub open spec fn pad_zeros(s: Seq<char>, k: int) -> Seq<char> {
    if s.len() >= k {
        s
    } else {
        Seq::new((k - s.len()) as nat, |j: int| '0') + s
    }
}

/// The identifier built from a registration number and a pack code: prefix,
/// five registration digits, three pack digits, check digit; empty when the
/// registration number holds no digit at all.
pub open spec fn build_gtin_spec(reg: Seq<char>, pack: Seq<char>) -> Seq<char> {
    let rd = digits_of(reg);
    if rd.len() == 0 {
        Seq::empty()
    } else {
        let reg5 = pad_zeros(take_at_most(rd, 5), 5);
        let pd = digits_of(pack);
        let pack3 = if pd.len() == 0 {
            seq!['0', '0', '0']
        } else {
            pad_zeros(take_at_most(pd, 3), 3)
        };
        let base12 = seq!['7', '6', '8', '0'] + reg5 + pack3;
        base12.push(gtin_checksum_spec(base12))
    }
}

/// The digits of a string as a character vector.
fn collect_digits(s: &str) -> (r: Vec<char>)
    ensures
        r@ == digits_of(s@),
{
    let v = crate::text::str_chars(s);
    let n = v.len();
    let mut out: Vec<char> = Vec::new();
    let mut i: usize = 0;
    while i < n
        invariant
            i <= n,
            n == v@.len(),
            v@ == s@,
            out@ == digits_of(v@.subrange(0, i as int)),
        decreases n - i,
    {
        let c = v[i];
        let u = c as u32;
        proof {
            assert(v@.subrange(0, i + 1).drop_last() =~= v@.subrange(0, i as int));
            assert(v@.subrange(0, i + 1).last() == c);
        }
        if 48 <= u && u <= 57 {
            out.push(c);
        }
        i = i + 1;
    }
    proof {
        assert(v@.subrange(0, n as int) =~= v@);
    }
    out
}

/// Build a 13-character identifier from a raw registration number and pack
/// code; the empty string when the registration number has no digits.
pub fn build_gtin(reg_nr_raw: &str, pack_code_raw: &str) -> (r: String)
    ensures
        r@ == build_gtin_spec(reg_nr_raw@, pack_code_raw@),
        r@.len() == 0 || r@.len() == 13,
{
    let rd = collect_digits(reg_nr_raw);
    if rd.len() == 0 {
        let out: Vec<char> = Vec::new();
        return crate::text::chars_to_string(&out);
    }
    let mut base: Vec<char> = Vec::new();
    base.push('7');
    base.push('6');
    base.push('8');
    base.push('0');
    let reg_take: usize = if rd.len() > 5 {
        5
    } else {
        rd.len()
    };
    let mut j: usize = reg_take;
    while j < 5
        invariant
            reg_take <= j <= 5,
            base@ == seq!['7', '6', '8', '0'] + Seq::new((j - reg_take) as nat, |k: int| '0'),
        decreases 5 - j,
    {
        base.push('0');
        proof {
            assert(base@ =~= seq!['7', '6', '8', '0'] + Seq::new(
                (j + 1 - reg_take) as nat,
                |k: int| '0',
            ));
        }
        j = j + 1;
    }
    let mut j: usize = 0;
    while j < reg_take
        invariant
            0 <= j <= reg_take,
            reg_take <= rd@.len(),
            reg_take == (if rd@.len() > 5 { 5int } else { rd@.len() as int }),
            base@ == seq!['7', '6', '8', '0'] + Seq::new((5 - reg_take) as nat, |k: int| '0')
                + rd@.subrange(0, j as int),
        decreases reg_take - j,
    {
        base.push(rd[j]);
        proof {
            assert(base@ =~= seq!['7', '6', '8', '0'] + Seq::new(
                (5 - reg_take) as nat,
                |k: int| '0',
            ) + rd@.subrange(0, j + 1));
        }
        j = j + 1;
    }
    proof {
        let reg5 = pad_zeros(take_at_most(rd@, 5), 5);
        assert(rd@.subrange(0, reg_take as int) =~= take_at_most(rd@, 5));
        assert(Seq::new((5 - reg_take) as nat, |k: int| '0') + take_at_most(rd@, 5) =~= reg5);
        assert(base@ =~= seq!['7', '6', '8', '0'] + reg5);
    }
    let pd = collect_digits(pack_code_raw);
    let ghost base9 = base@;
    if pd.len() == 0 {
        base.push('0');
        base.push('0');
        base.push('0');
        proof {
            assert(base@ =~= base9 + seq!['0', '0', '0']);
        }
    } else {
        let pack_take: usize = if pd.len() > 3 {
            3
        } else {
            pd.len()
        };
        let mut j: usize = pack_take;
        while j < 3
            invariant
                pack_take <= j <= 3,
                base@ == base9 + Seq::new((j - pack_take) as nat, |k: int| '0'),
            decreases 3 - j,
        {
            base.push('0');
            proof {
                assert(base@ =~= base9 + Seq::new((j + 1 - pack_take) as nat, |k: int| '0'));
            }
            j = j + 1;
        }
        let mut j: usize = 0;
        while j < pack_take
            invariant
                0 <= j <= pack_take,
                pack_take <= pd@.len(),
                pack_take == (if pd@.len() > 3 { 3int } else { pd@.len() as int }),
                base@ == base9 + Seq::new((3 - pack_take) as nat, |k: int| '0') + pd@.subrange(
                    0,
                    j as int,
                ),
            decreases pack_take - j,
        {
            base.push(pd[j]);
            proof {
                assert(base@ =~= base9 + Seq::new((3 - pack_take) as nat, |k: int| '0')
                    + pd@.subrange(0, j + 1));
            }
            j = j + 1;
        }
        proof {
            let pack3 = pad_zeros(take_at_most(pd@, 3), 3);
            assert(pd@.subrange(0, pack_take as int) =~= take_at_most(pd@, 3));
            assert(Seq::new((3 - pack_take) as nat, |k: int| '0') + take_at_most(pd@, 3)
                =~= pack3);
            assert(base@ =~= base9 + pack3);
        }
    }
    let check = checksum_of_chars(&base);
    base.push(check);
    proof {
        assert(base@ =~= build_gtin_spec(reg_nr_raw@, pack_code_raw@));
    }
    crate::text::chars_to_string(&base)
}

proof fn lemma_gtin_digits_prefix(g: u64, k: int)
    requires
        g < 10_000_000_000_000,
        0 <= k <= 13,
    ensures
        chars_value(gtin_digits(g).subrange(0, k)) == g as nat / pow10((13 - k) as nat),
    decreases k,
{
    lemma_pow10_values();
    let s = gtin_digits(g);
    if k == 0 {
        assert(s.subrange(0, 0) =~= Seq::<char>::empty());
        assert(g as int / pow10(13) as int == 0) by {
            vstd::arithmetic::div_mod::lemma_basic_div(g as int, pow10(13) as int);
        }
    } else {
        lemma_gtin_digits_prefix(g, k - 1);
        let sk = s.subrange(0, k);
        assert(sk.drop_last() =~= s.subrange(0, k - 1));
        assert(sk.last() == s[k - 1]);
        let p = pow10((13 - k) as nat);
        assert(p >= 1) by {
            lemma_pow10_pos((13 - k) as nat);
        }
        let a = g as int / p as int;
        assert(s[k - 1] == digit_char(((g as nat / pow10((12 - (k - 1)) as nat)) % 10) as int));
        assert((12 - (k - 1)) as nat == (13 - k) as nat);
        let d = (g as nat / p) % 10;
        assert(d <= 9);
        assert(digit_val(digit_char(d as int)) == d);
        assert(pow10((14 - k) as nat) == 10 * p);
        assert(g as int / (10 * p) as int == a / 10) by {
            vstd::arithmetic::div_mod::lemma_div_denominator(g as int, p as int, 10);
        }
        assert(a == 10 * (a / 10) + a % 10) by {
            vstd::arithmetic::div_mod::lemma_fundamental_div_mod(a, 10);
        }
        assert(a >= 0) by {
            vstd::arithmetic::div_mod::lemma_div_pos_is_pos(g as int, p as int);
        }
        assert(chars_value(sk) == chars_value(sk.drop_last()) * 10 + digit_val(sk.last()));
        assert(chars_value(sk.drop_last()) == g as nat / pow10((14 - k) as nat));
        assert(d == a % 10) by {
            assert(g as nat / p == a);
        }
    }
}

/// Rendering an identifier to digits and reading the digits back is the
/// identity.
pub proof fn lemma_gtin_digits_value(g: u64)
    requires
        g < 10_000_000_000_000,
    ensures
        chars_value(gtin_digits(g)) == g,
{
    lemma_gtin_digits_prefix(g, 13);
    assert(gtin_digits(g).subrange(0, 13) =~= gtin_digits(g));
    lemma_pow10_values();
    assert(g as int / 1int == g as int);
}

/// Distinct identifiers render to distinct digit strings.
pub proof fn lemma_gtin_digits_injective(g1: u64, g2: u64)
    requires
        g1 < 10_000_000_000_000,
        g2 < 10_000_000_000_000,
        gtin_digits(g1) == gtin_digits(g2),
    ensures
        g1 == g2,
{
    lemma_gtin_digits_value(g1);
    lemma_gtin_digits_value(g2);
}

/// An identifier in range survives the round trip through its string form.
pub proof fn lemma_gtin_round_trip(g: u64)
    requires
        gtin_in_range(g),
    ensures
        valid_gtin(gtin_digits(g)),
        chars_value(gtin_digits(g)) == g,
{
    lemma_gtin_digits_valid(g);
    lemma_gtin_digits_value(g);
}

} // verus!
