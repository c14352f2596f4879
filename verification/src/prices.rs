//! Price series and their resolution to a single effective amount, plus the
//! decimal money parser.  Amounts are carried in thousandths of a currency
//! unit, so the classification epsilon of 0.001 is exactly one unit.

use vstd::prelude::*;
use crate::dates::{DateTuple, date_le, date_lt, date_le_exec, date_lt_exec};
use crate::gtin::{
    all_digits,
    chars_value,
    digit_val,
    is_digit,
    pow10,
    lemma_chars_value_bound,
    lemma_pow10_values,
    lemma_pow10_mono,
};
use crate::text::{str_chars, find_char, lemma_find_char};
use crate::model::MAX_AMOUNT_MILLIS;

verus! {

/// The fold that scans a series left to right, keeping the sample with the
/// latest date not after `cur` seen so far.
pub open spec fn effective_price_from(
    s: Seq<(DateTuple, u64)>,
    cur: DateTuple,
    best: Option<DateTuple>,
    price: u64,
) -> u64
    decreases s.len(),
{
    if s.len() == 0 {
        price
    } else {
        if date_le(s[0].0, cur) && (best.is_none() || date_lt(best.unwrap(), s[0].0)) {
            effective_price_from(s.skip(1), cur, Some(s[0].0), s[0].1)
        } else {
            effective_price_from(s.skip(1), cur, best, price)
        }
    }
}

/// The amount valid as of `cur`: the sample with the latest date on or
/// before `cur`; 0 when the series is empty or every sample is later.
pub open spec fn effective_price_spec(s: Seq<(DateTuple, u64)>, cur: DateTuple) -> u64 {
    effective_price_from(s, cur, None, 0)
}

/// Resolve one price series as of a reference date.
pub fn get_effective_price(prices: &Vec<(DateTuple, u64)>, current: &DateTuple) -> (r: u64)
    ensures
        r == effective_price_spec(prices@, *current),
{
    let n = prices.len();
    let cur = *current;
    let mut best: Option<DateTuple> = None;
    let mut price: u64 = 0;
    let mut i: usize = 0;
    proof {
        assert(prices@.skip(0) =~= prices@);
    }
    while i < n
        invariant
            i <= n,
            n == prices@.len(),
            cur == *current,
            effective_price_spec(prices@, cur) == effective_price_from(
                prices@.skip(i as int),
                cur,
                best,
                price,
            ),
        decreases n - i,
    {
        let ghost tail = prices@.skip(i as int);
        proof {
            assert(tail[0] == prices@[i as int]);
            assert(tail.skip(1) =~= prices@.skip(i + 1));
        }
        let e = prices[i];
        let take = match best {
            None => date_le_exec(e.0, cur),
            Some(bd) => date_le_exec(e.0, cur) && date_lt_exec(bd, e.0),
        };
        if take {
            best = Some(e.0);
            price = e.1;
        }
        i = i + 1;
    }
    proof {
        assert(prices@.skip(n as int) =~= Seq::<(DateTuple, u64)>::empty());
    }
    price
}

/// When no sample qualifies, the fold keeps its accumulator.
pub proof fn lemma_effective_no_qualifying(
    s: Seq<(DateTuple, u64)>,
    cur: DateTuple,
    best: Option<DateTuple>,
    price: u64,
)
    requires
        forall|j: int| 0 <= j < s.len() ==> !date_le((#[trigger] s[j]).0, cur),
    ensures
        effective_price_from(s, cur, best, price) == price,
    decreases s.len(),
{
    if s.len() > 0 {
        assert(!date_le(s[0].0, cur));
        assert(forall|j: int|
            0 <= j < s.skip(1).len() ==> #[trigger] s.skip(1)[j] == s[j + 1]);
        lemma_effective_no_qualifying(s.skip(1), cur, best, price);
    }
}

/// A series whose every sample postdates the reference date resolves to 0.
pub proof fn lemma_all_future_resolves_to_zero(s: Seq<(DateTuple, u64)>, cur: DateTuple)
    requires
        forall|j: int| 0 <= j < s.len() ==> !date_le((#[trigger] s[j]).0, cur),
    ensures
        effective_price_spec(s, cur) == 0,
{
    lemma_effective_no_qualifying(s, cur, None, 0);
}

/// A series with exactly one sample dated on or before the reference date
/// resolves to that sample's amount.
pub proof fn lemma_single_qualifying_sample(s: Seq<(DateTuple, u64)>, cur: DateTuple, i: int)
    requires
        0 <= i < s.len(),
        date_le(s[i].0, cur),
        forall|j: int| 0 <= j < s.len() && j != i ==> !date_le((#[trigger] s[j]).0, cur),
    ensures
        effective_price_spec(s, cur) == s[i].1,
{
    lemma_single_qualifying_from(s, cur, i);
}

proof fn lemma_single_qualifying_from(s: Seq<(DateTuple, u64)>, cur: DateTuple, i: int)
    requires
        0 <= i < s.len(),
        date_le(s[i].0, cur),
        forall|j: int| 0 <= j < s.len() && j != i ==> !date_le((#[trigger] s[j]).0, cur),
    ensures
        effective_price_from(s, cur, None, 0) == s[i].1,
    decreases s.len(),
{
    assert(forall|j: int| 0 <= j < s.skip(1).len() ==> #[trigger] s.skip(1)[j] == s[j + 1]);
    if i == 0 {
        assert(date_le(s[0].0, cur));
        assert(effective_price_from(s, cur, None, 0) == effective_price_from(
            s.skip(1),
            cur,
            Some(s[0].0),
            s[0].1,
        ));
        lemma_effective_no_qualifying(s.skip(1), cur, Some(s[0].0), s[0].1);
    } else {
        assert(!date_le(s[0].0, cur));
        lemma_single_qualifying_from(s.skip(1), cur, i - 1);
        assert(s.skip(1)[i - 1] == s[i]);
    }
}

/// The fold never invents an amount: its result is the accumulator or one of
/// the series' amounts.
pub proof fn lemma_effective_bounded(
    s: Seq<(DateTuple, u64)>,
    cur: DateTuple,
    best: Option<DateTuple>,
    price: u64,
    m: u64,
)
    requires
        price <= m,
        forall|j: int| 0 <= j < s.len() ==> (#[trigger] s[j]).1 <= m,
    ensures
        effective_price_from(s, cur, best, price) <= m,
    decreases s.len(),
{
    if s.len() > 0 {
        assert(forall|j: int|
            0 <= j < s.skip(1).len() ==> #[trigger] s.skip(1)[j] == s[j + 1]);
        if date_le(s[0].0, cur) && (best.is_none() || date_lt(best.unwrap(), s[0].0)) {
            lemma_effective_bounded(s.skip(1), cur, Some(s[0].0), s[0].1, m);
        } else {
            lemma_effective_bounded(s.skip(1), cur, best, price, m);
        }
    }
}


/// No later sample overtakes the held best: when every qualifying sample
/// is dated no later than the held date, the fold keeps its accumulator.
proof fn lemma_no_better_sample(
    s: Seq<(DateTuple, u64)>,
    cur: DateTuple,
    b: DateTuple,
    price: u64,
)
    requires
        forall|j: int|
            0 <= j < s.len() && date_le((#[trigger] s[j]).0, cur) ==> !date_lt(b, s[j].0),
    ensures
        effective_price_from(s, cur, Some(b), price) == price,
    decreases s.len(),
{
    if s.len() > 0 {
        assert(forall|j: int|
            0 <= j < s.skip(1).len() ==> #[trigger] s.skip(1)[j] == s[j + 1]);
        if date_le(s[0].0, cur) {
            assert(!date_lt(b, s[0].0));
        }
        lemma_no_better_sample(s.skip(1), cur, b, price);
    }
}

proof fn lemma_latest_from(
    s: Seq<(DateTuple, u64)>,
    cur: DateTuple,
    best: Option<DateTuple>,
    price: u64,
    i: int,
)
    requires
        0 <= i < s.len(),
        date_le(s[i].0, cur),
        forall|j: int|
            0 <= j < s.len() && j != i && date_le((#[trigger] s[j]).0, cur) ==> date_lt(
                s[j].0,
                s[i].0,
            ),
        best.is_none() || date_lt(best.unwrap(), s[i].0),
    ensures
        effective_price_from(s, cur, best, price) == s[i].1,
    decreases s.len(),
{
    assert(forall|j: int| 0 <= j < s.skip(1).len() ==> #[trigger] s.skip(1)[j] == s[j + 1]);
    if i == 0 {
        assert(date_le(s[0].0, cur) && (best.is_none() || date_lt(best.unwrap(), s[0].0)));
        lemma_no_better_sample(s.skip(1), cur, s[0].0, s[0].1);
    } else {
        if date_le(s[0].0, cur) && (best.is_none() || date_lt(best.unwrap(), s[0].0)) {
            assert(date_lt(s[0].0, s[i].0));
            lemma_latest_from(s.skip(1), cur, Some(s[0].0), s[0].1, i - 1);
            assert(s.skip(1)[i - 1] == s[i]);
        } else {
            lemma_latest_from(s.skip(1), cur, best, price, i - 1);
            assert(s.skip(1)[i - 1] == s[i]);
        }
    }
}

/// Resolution always selects the sample with the latest change date not
/// after the reference date: if sample `i` is on or before `cur` and every
/// other such sample is strictly earlier, the series resolves to it.
pub proof fn lemma_effective_latest(s: Seq<(DateTuple, u64)>, cur: DateTuple, i: int)
    requires
        0 <= i < s.len(),
        date_le(s[i].0, cur),
        forall|j: int|
            0 <= j < s.len() && j != i && date_le((#[trigger] s[j]).0, cur) ==> date_lt(
                s[j].0,
                s[i].0,
            ),
    ensures
        effective_price_spec(s, cur) == s[i].1,
{
    lemma_latest_from(s, cur, None, 0, i);
}

/// The thousandths denoted by the first fraction digits, truncated after
/// three places.
pub open spec fn frac_millis(fp: Seq<char>) -> nat {
    digit_val(fp[0]) * 100 + (if fp.len() >= 2 {
        digit_val(fp[1]) * 10
    } else {
        0
    }) + (if fp.len() >= 3 {
        digit_val(fp[2])
    } else {
        0
    })
}

/// The amount in thousandths denoted by a plain decimal number: an integer
/// part of 1 to 15 digits, optionally a dot and at least one fraction digit.
/// Anything else (signs, exponents, further dots, emptiness) yields `None`.
pub open spec fn money_millis_spec(s: Seq<char>) -> Option<u64> {
    let dot = find_char(s, '.');
    if dot == -1 {
        if 1 <= s.len() <= 15 && all_digits(s) {
            Some((chars_value(s) * 1000) as u64)
        } else {
            None
        }
    } else {
        let ip = s.subrange(0, dot);
        let fp = s.skip(dot + 1);
        if 1 <= ip.len() <= 15 && all_digits(ip) && 1 <= fp.len() && all_digits(fp) {
            Some((chars_value(ip) * 1000 + frac_millis(fp)) as u64)
        } else {
            None
        }
    }
}

/// The number read from digits `from..to` of `v`, up to 15 digits.
fn parse_digits_u64(v: &Vec<char>, from: usize, to: usize) -> (r: Option<u64>)
    requires
        from <= to,
        to <= v@.len(),
        to - from <= 15,
    ensures
        r.is_some() == all_digits(v@.subrange(from as int, to as int)),
        r matches Some(x) ==> x == chars_value(v@.subrange(from as int, to as int)) && x
            < 1_000_000_000_000_000,
{
    let mut acc: u64 = 0;
    let mut i: usize = from;
    while i < to
        invariant
            from <= i <= to,
            to <= v@.len(),
            to - from <= 15,
            all_digits(v@.subrange(from as int, i as int)),
            acc == chars_value(v@.subrange(from as int, i as int)),
            acc < pow10((i - from) as nat),
        decreases to - i,
    {
        let c = v[i];
        let u = c as u32;
        if !(48 <= u && u <= 57) {
            proof {
                assert(v@.subrange(from as int, to as int)[i - from] == v@[i as int]);
                assert(!is_digit(v@[i as int]));
            }
            return None;
        }
        proof {
            lemma_pow10_values();
            lemma_pow10_mono((i - from) as nat, 14);
            assert(v@.subrange(from as int, i + 1).drop_last() =~= v@.subrange(
                from as int,
                i as int,
            ));
            assert(v@.subrange(from as int, i + 1).last() == v@[i as int]);
        }
        acc = acc * 10 + ((u - 48) as u64);
        i = i + 1;
        proof {
            assert(all_digits(v@.subrange(from as int, i as int)));
            lemma_chars_value_bound(v@.subrange(from as int, i as int));
        }
    }
    proof {
        assert(v@.subrange(from as int, to as int) =~= v@.subrange(from as int, i as int));
        lemma_pow10_values();
        lemma_pow10_mono((to - from) as nat, 15);
    }
    Some(acc)
}

/// Read a decimal amount as thousandths; `None` exactly when the string is
/// not a plain decimal of 1 to 15 integer digits with optional fraction.
pub fn parse_money(s: &str) -> (r: Option<u64>)
    ensures
        r == money_millis_spec(s@),
        r matches Some(x) ==> x <= MAX_AMOUNT_MILLIS,
{
    let v = str_chars(s);
    let n = v.len();
    proof {
        lemma_find_char(v@, '.');
        lemma_pow10_values();
    }
    let mut dot: usize = 0;
    let mut has_dot = false;
    while dot < n && !has_dot
        invariant
            dot <= n,
            n == v@.len(),
            v@ == s@,
            forall|k: int| 0 <= k < dot ==> v@[k] != '.',
            has_dot ==> dot < n && v@[dot as int] == '.',
        decreases n - dot + (if has_dot {
            0int
        } else {
            1int
        }),
    {
        if v[dot] == '.' {
            has_dot = true;
        } else {
            dot = dot + 1;
        }
    }
    proof {
        lemma_find_char(v@, '.');
        let f = find_char(v@, '.');
        if has_dot {
            assert(f != -1) by {
                if f == -1 {
                    assert(v@[dot as int] != '.');
                }
            }
            assert(f == dot) by {
                if f < dot {
                    assert(v@[f] != '.');
                }
                if f > dot {
                    assert(v@[dot as int] != '.');
                }
            }
        } else {
            assert(f == -1) by {
                if f != -1 {
                    assert(v@[f] != '.');
                }
            }
        }
    }
    if !has_dot {
        if n < 1 || n > 15 {
            return None;
        }
        let ip = parse_digits_u64(&v, 0, n);
        proof {
            assert(v@.subrange(0, n as int) =~= v@);
        }
        match ip {
            Some(x) => Some(x * 1000),
            None => None,
        }
    } else {
        if dot < 1 || dot > 15 {
            return None;
        }
        if n - dot - 1 < 1 {
            return None;
        }
        let ip = parse_digits_u64(&v, 0, dot);
        let ghost fp = v@.skip(dot + 1);
        proof {
            assert(forall|k: int| 0 <= k < fp.len() ==> #[trigger] fp[k] == v@[dot + 1 + k]);
        }
        match ip {
            Some(x) => {
                let mut k: usize = dot + 1;
                while k < n
                    invariant
                        dot + 1 <= k <= n,
                        n == v@.len(),
                        v@ == s@,
                        dot <= 15,
                        find_char(v@, '.') == dot,
                        fp == v@.skip(dot + 1),
                        forall|j: int| 0 <= j < fp.len() ==> #[trigger] fp[j] == v@[dot + 1 + j],
                        forall|j: int| dot + 1 <= j < k ==> is_digit(#[trigger] v@[j]),
                    decreases n - k,
                {
                    let c = v[k];
                    let u = c as u32;
                    if !(48 <= u && u <= 57) {
                        proof {
                            assert(fp[k - dot - 1] == v@[k as int]);
                            assert(!all_digits(fp));
                        }
                        return None;
                    }
                    k = k + 1;
                }
                proof {
                    assert(all_digits(fp)) by {
                        assert(forall|j: int|
                            0 <= j < fp.len() ==> #[trigger] fp[j] == v@[dot + 1 + j]);
                    }
                }
                let d0 = v[dot + 1];
                let f0: u64 = ((d0 as u32) - 48) as u64;
                let mut frac: u64 = f0 * 100;
                if dot + 2 < n {
                    let d1 = v[dot + 2];
                    frac = frac + (((d1 as u32) - 48) as u64) * 10;
                }
                if dot + 3 < n {
                    let d2 = v[dot + 3];
                    frac = frac + (((d2 as u32) - 48) as u64);
                }
                proof {
                    assert(fp[0] == v@[dot + 1]);
                    if fp.len() >= 2 {
                        assert(fp[1] == v@[dot + 2]);
                    }
                    if fp.len() >= 3 {
                        assert(fp[2] == v@[dot + 3]);
                    }
                    assert(frac == frac_millis(fp));
                    assert(frac <= 999);
                }
                Some(x * 1000 + frac)
            },
            None => None,
        }
    }
}

} // verus!
