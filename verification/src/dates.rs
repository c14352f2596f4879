//! Calendar dates: parsing timestamps, ordering, and resolving the effective
//! date of a bundle sequence by majority vote with a deterministic tie rule.

use vstd::prelude::*;
use crate::gtin::{
    all_digits,
    chars_value,
    is_digit,
    pow10,
    lemma_chars_value_bound,
    lemma_pow10_values,
    lemma_pow10_mono,
};
use crate::text::{str_chars, split_chars, split_char};
use crate::model::BundleV;

verus! {

/// A calendar date as (year, month, day).
pub type DateTuple = (i32, i32, i32);

/// Lexicographic order on (year, month, day).
pub open spec fn date_le(a: DateTuple, b: DateTuple) -> bool {
    ||| a.0 < b.0
    ||| (a.0 == b.0 && a.1 < b.1)
    ||| (a.0 == b.0 && a.1 == b.1 && a.2 <= b.2)
}

pub open spec fn date_lt(a: DateTuple, b: DateTuple) -> bool {
    date_le(a, b) && a != b
}

/// Whether `a` is on or before `b`.
pub fn date_le_exec(a: DateTuple, b: DateTuple) -> (r: bool)
    ensures
        r == date_le(a, b),
{
    if a.0 < b.0 {
        true
    } else if a.0 == b.0 && a.1 < b.1 {
        true
    } else if a.0 == b.0 && a.1 == b.1 && a.2 <= b.2 {
        true
    } else {
        false
    }
}

/// Whether `a` is strictly before `b`.
pub fn date_lt_exec(a: DateTuple, b: DateTuple) -> (r: bool)
    ensures
        r == date_lt(a, b),
{
    let le = date_le_exec(a, b);
    le && !(a.0 == b.0 && a.1 == b.1 && a.2 == b.2)
}

/// The number read from digits `from..to` of `v`; `None` if any is no digit.
fn parse_digits_range(v: &Vec<char>, from: usize, to: usize) -> (r: Option<u32>)
    requires
        from <= to,
        to <= v@.len(),
        to - from <= 9,
    ensures
        r.is_some() == all_digits(v@.subrange(from as int, to as int)),
        r matches Some(x) ==> x == chars_value(v@.subrange(from as int, to as int)),
{
    let mut acc: u32 = 0;
    let mut i: usize = from;
    while i < to
        invariant
            from <= i <= to,
            to <= v@.len(),
            to - from <= 9,
            all_digits(v@.subrange(from as int, i as int)),
            acc == chars_value(v@.subrange(from as int, i as int)),
            acc < pow10((i - from) as nat),
        decreases to - i,
    {
        let c = v[i];
        let u = c as u32;
        if !(48 <= u && u <= 57) {
            proof {
                assert(v@.subrange(from as int, to as int)[i - from] == v@[i as int]);
                assert(!is_digit(v@[i as int]));
            }
            return None;
        }
        proof {
            lemma_pow10_values();
            lemma_pow10_mono((i - from) as nat, 8);
            assert(v@.subrange(from as int, i + 1).drop_last() =~= v@.subrange(
                from as int,
                i as int,
            ));
            assert(v@.subrange(from as int, i + 1).last() == v@[i as int]);
        }
        acc = acc * 10 + (u - 48);
        i = i + 1;
        proof {
            assert(all_digits(v@.subrange(from as int, i as int)));
            lemma_chars_value_bound(v@.subrange(from as int, i as int));
        }
    }
    proof {
        assert(v@.subrange(from as int, to as int) =~= v@.subrange(from as int, i as int));
    }
    Some(acc)
}

/// The date read from the first ten characters of a timestamp, as
/// `YYYY?MM?DD` with the digit positions checked and the separators ignored.
pub open spec fn parse_date_spec(s: Seq<char>) -> Option<DateTuple> {
    if s.len() < 10 {
        None
    } else {
        let ys = s.subrange(0, 4);
        let ms = s.subrange(5, 7);
        let ds = s.subrange(8, 10);
        if all_digits(ys) && all_digits(ms) && all_digits(ds) {
            Some(
                (
                    chars_value(ys) as i32,
                    chars_value(ms) as i32,
                    chars_value(ds) as i32,
                ),
            )
        } else {
            None
        }
    }
}

/// Read the leading date of a timestamp string.
pub fn parse_date_str(d: &str) -> (r: Option<DateTuple>)
    ensures
        r == parse_date_spec(d@),
{
    let v = str_chars(d);
    if v.len() < 10 {
        return None;
    }
    let y = parse_digits_range(&v, 0, 4);
    let m = parse_digits_range(&v, 5, 7);
    let dd = parse_digits_range(&v, 8, 10);
    if y.is_some() && m.is_some() && dd.is_some() {
        let yv = y.unwrap();
        let mv = m.unwrap();
        let dv = dd.unwrap();
        proof {
            lemma_pow10_values();
            lemma_chars_value_bound(v@.subrange(0, 4));
            lemma_chars_value_bound(v@.subrange(5, 7));
            lemma_chars_value_bound(v@.subrange(8, 10));
        }
        Some((yv as i32, mv as i32, dv as i32))
    } else {
        None
    }
}

/// A piece read as a number when it is 1 to 9 digits, else the default.
pub open spec fn num_or_default(p: Seq<char>, dflt: int) -> int {
    if 1 <= p.len() <= 9 && all_digits(p) {
        chars_value(p) as int
    } else {
        dflt
    }
}

/// The date read from a `dd.mm.yyyy` string, with per-piece defaults.
pub open spec fn date_str_to_tuple_spec(s: Seq<char>) -> DateTuple {
    let parts = split_char(s, '.');
    if parts.len() == 3 {
        (
            num_or_default(parts[2], 2026) as i32,
            num_or_default(parts[1], 1) as i32,
            num_or_default(parts[0], 1) as i32,
        )
    } else {
        (2026, 1, 6)
    }
}

/// The number a piece denotes, or `None` when it is not 1 to 9 digits.
fn parse_part(p: &Vec<char>) -> (r: Option<u32>)
    ensures
        r.is_some() == (1 <= p@.len() <= 9 && all_digits(p@)),
        r matches Some(x) ==> x == chars_value(p@),
{
    let n = p.len();
    if n < 1 || n > 9 {
        return None;
    }
    let r = parse_digits_range(p, 0, n);
    proof {
        assert(p@.subrange(0, n as int) =~= p@);
    }
    r
}

/// Interpret a fallback date written as `dd.mm.yyyy`.
pub fn date_str_to_tuple(s: &str) -> (r: DateTuple)
    ensures
        r == date_str_to_tuple_spec(s@),
{
    let v = str_chars(s);
    let parts = split_chars(&v, '.');
    proof {
        assert(parts@.map_values(|p: Vec<char>| p@) == split_char(s@, '.'));
    }
    if parts.len() != 3 {
        return (2026, 1, 6);
    }
    proof {
        assert(parts@.map_values(|p: Vec<char>| p@)[0] == parts@[0]@);
        assert(parts@.map_values(|p: Vec<char>| p@)[1] == parts@[1]@);
        assert(parts@.map_values(|p: Vec<char>| p@)[2] == parts@[2]@);
    }
    let d: u32 = match parse_part(&parts[0]) {
        Some(x) => x,
        None => 1,
    };
    let m: u32 = match parse_part(&parts[1]) {
        Some(x) => x,
        None => 1,
    };
    let y: u32 = match parse_part(&parts[2]) {
        Some(x) => x,
        None => 2026,
    };
    proof {
        lemma_pow10_values();
        if 1 <= parts@[0]@.len() <= 9 && all_digits(parts@[0]@) {
            lemma_chars_value_bound(parts@[0]@);
            lemma_pow10_mono(parts@[0]@.len(), 9);
        }
        if 1 <= parts@[1]@.len() <= 9 && all_digits(parts@[1]@) {
            lemma_chars_value_bound(parts@[1]@);
            lemma_pow10_mono(parts@[1]@.len(), 9);
        }
        if 1 <= parts@[2]@.len() <= 9 && all_digits(parts@[2]@) {
            lemma_chars_value_bound(parts@[2]@);
            lemma_pow10_mono(parts@[2]@.len(), 9);
        }
    }
    (y as i32, m as i32, d as i32)
}

/// The date a bundle's timestamp denotes, if any.
pub open spec fn bundle_date(b: BundleV) -> Option<DateTuple> {
    match b.timestamp {
        Some(ts) => parse_date_spec(ts),
        None => None,
    }
}

/// The dates of all timestamped bundles, in order.
pub open spec fn bundle_dates(bs: Seq<BundleV>) -> Seq<DateTuple>
    decreases bs.len(),
{
    if bs.len() == 0 {
        Seq::empty()
    } else {
        match bundle_date(bs[0]) {
            Some(d) => seq![d] + bundle_dates(bs.skip(1)),
            None => bundle_dates(bs.skip(1)),
        }
    }
}

/// How often a date occurs in a sequence of dates.
pub open spec fn count_date(ds: Seq<DateTuple>, d: DateTuple) -> nat
    decreases ds.len(),
{
    if ds.len() == 0 {
        0
    } else {
        count_date(ds.drop_last(), d) + (if ds.last() == d {
            1nat
        } else {
            0nat
        })
    }
}

/// The winning date: it occurs, no date occurs more often, and among dates
/// of the same count it is the greatest.
pub open spec fn is_best_date(ds: Seq<DateTuple>, d: DateTuple) -> bool {
    &&& exists|i: int| 0 <= i < ds.len() && ds[i] == d
    &&& forall|i: int|
        0 <= i < ds.len() ==> (count_date(ds, #[trigger] ds[i]) < count_date(ds, d)
            || (count_date(ds, ds[i]) == count_date(ds, d) && date_le(ds[i], d)))
}

/// The tally is faithful to a date sequence: keys unique, each key counted
/// right, every key occurring, every date covered.
pub open spec fn tally_ok(counts: Seq<(DateTuple, u64)>, ds: Seq<DateTuple>) -> bool {
    &&& forall|j: int, k: int|
        0 <= j < k < counts.len() ==> (#[trigger] counts[j]).0 != (#[trigger] counts[k]).0
    &&& forall|j: int|
        0 <= j < counts.len() ==> (#[trigger] counts[j]).1 == count_date(ds, counts[j].0)
    &&& forall|j: int|
        0 <= j < counts.len() ==> exists|i: int|
            0 <= i < ds.len() && ds[i] == (#[trigger] counts[j]).0
    &&& forall|i: int|
        0 <= i < ds.len() ==> exists|j: int|
            0 <= j < counts.len() && (#[trigger] ds[i]) == counts[j].0
}

pub proof fn lemma_count_le_len(ds: Seq<DateTuple>, d: DateTuple)
    ensures
        count_date(ds, d) <= ds.len(),
    decreases ds.len(),
{
    if ds.len() > 0 {
        lemma_count_le_len(ds.drop_last(), d);
    }
}

pub proof fn lemma_count_push(ds: Seq<DateTuple>, x: DateTuple, d: DateTuple)
    ensures
        count_date(ds.push(x), d) == count_date(ds, d) + (if x == d {
            1int
        } else {
            0int
        }),
{
    assert(ds.push(x).drop_last() =~= ds);
    assert(ds.push(x).last() == x);
}

pub proof fn lemma_count_zero(ds: Seq<DateTuple>, d: DateTuple)
    requires
        forall|i: int| 0 <= i < ds.len() ==> (#[trigger] ds[i]) != d,
    ensures
        count_date(ds, d) == 0,
    decreases ds.len(),
{
    if ds.len() > 0 {
        assert(forall|i: int|
            0 <= i < ds.len() - 1 ==> (#[trigger] ds.drop_last()[i]) == ds[i]);
        lemma_count_zero(ds.drop_last(), d);
    }
}

/// Record one more occurrence of `d` in a faithful tally.
#[verifier::rlimit(80)]
fn bump_date(counts: &mut Vec<(DateTuple, u64)>, d: DateTuple, Ghost(ds): Ghost<Seq<DateTuple>>)
    requires
        tally_ok(old(counts)@, ds),
        ds.len() < usize::MAX,
    ensures
        tally_ok(final(counts)@, ds.push(d)),
{
    let ghost pre = counts@;
    let ghost dsp = ds.push(d);
    proof {
        assert(forall|i: int| 0 <= i < ds.len() ==> (#[trigger] dsp[i]) == ds[i]);
        assert(dsp[ds.len() as int] == d);
    }
    let m = counts.len();
    let mut j: usize = 0;
    let mut found = false;
    while j < m && !found
        invariant
            j <= m,
            m == counts@.len(),
            counts@ == pre,
            !found ==> forall|k: int| 0 <= k < j ==> (#[trigger] pre[k]).0 != d,
            found ==> j < m && pre[j as int].0 == d,
        decreases m - j + (if found {
            0int
        } else {
            1int
        }),
    {
        let e = counts[j];
        if e.0.0 == d.0 && e.0.1 == d.1 && e.0.2 == d.2 {
            found = true;
        } else {
            j = j + 1;
        }
    }
    if found {
        proof {
            assert(pre[j as int].0 == d);
        }
        let old_e = counts.remove(j);
        proof {
            lemma_count_le_len(ds, d);
        }
        counts.insert(j, (old_e.0, old_e.1 + 1));
        proof {
            assert(counts@ =~= pre.update(j as int, (old_e.0, (old_e.1 + 1) as u64)));
            lemma_count_push(ds, d, d);
            assert forall|jj: int|
                0 <= jj < counts@.len() implies (#[trigger] counts@[jj]).1 == count_date(
                dsp,
                counts@[jj].0,
            ) by {
                if jj == j {
                    assert(counts@[jj].0 == d);
                } else {
                    assert(counts@[jj] == pre[jj]);
                    assert(pre[jj].0 != d) by {
                        if jj < j {
                            assert(pre[jj].0 != pre[j as int].0);
                        } else {
                            assert(pre[j as int].0 != pre[jj].0);
                        }
                    }
                    lemma_count_push(ds, d, pre[jj].0);
                }
            }
            assert forall|jj: int|
                0 <= jj < counts@.len() implies exists|i: int|
                0 <= i < dsp.len() && dsp[i] == (#[trigger] counts@[jj]).0 by {
                let w = choose|i: int| 0 <= i < ds.len() && ds[i] == pre[jj].0;
                assert(dsp[w] == counts@[jj].0);
            }
            assert forall|i: int|
                0 <= i < dsp.len() implies exists|jj: int|
                0 <= jj < counts@.len() && (#[trigger] dsp[i]) == counts@[jj].0 by {
                if i == ds.len() {
                    assert(dsp[i] == counts@[j as int].0);
                } else {
                    let w = choose|jj: int| 0 <= jj < pre.len() && ds[i] == pre[jj].0;
                    assert(counts@[w].0 == pre[w].0);
                    assert(dsp[i] == counts@[w].0);
                }
            }
            assert(forall|jj: int, kk: int|
                0 <= jj < kk < counts@.len() ==> (#[trigger] counts@[jj]).0 != (
                #[trigger] counts@[kk]).0);
        }
    } else {
        proof {
            assert forall|i: int| 0 <= i < ds.len() implies (#[trigger] ds[i]) != d by {
                let w = choose|jj: int| 0 <= jj < pre.len() && ds[i] == pre[jj].0;
                assert(pre[w].0 != d);
            }
            lemma_count_zero(ds, d);
        }
        counts.push((d, 1));
        proof {
            assert(counts@ =~= pre.push((d, 1u64)));
            lemma_count_push(ds, d, d);
            assert forall|jj: int|
                0 <= jj < counts@.len() implies (#[trigger] counts@[jj]).1 == count_date(
                dsp,
                counts@[jj].0,
            ) by {
                if jj < pre.len() {
                    assert(counts@[jj] == pre[jj]);
                    assert(pre[jj].0 != d);
                    lemma_count_push(ds, d, pre[jj].0);
                } else {
                    assert(counts@[jj] == (d, 1u64));
                }
            }
            assert forall|jj: int|
                0 <= jj < counts@.len() implies exists|i: int|
                0 <= i < dsp.len() && dsp[i] == (#[trigger] counts@[jj]).0 by {
                if jj < pre.len() {
                    let w = choose|i: int| 0 <= i < ds.len() && ds[i] == pre[jj].0;
                    assert(dsp[w] == counts@[jj].0);
                } else {
                    assert(dsp[ds.len() as int] == counts@[jj].0);
                }
            }
            assert forall|i: int|
                0 <= i < dsp.len() implies exists|jj: int|
                0 <= jj < counts@.len() && (#[trigger] dsp[i]) == counts@[jj].0 by {
                if i == ds.len() {
                    assert(dsp[i] == counts@[pre.len() as int].0);
                } else {
                    let w = choose|jj: int| 0 <= jj < pre.len() && ds[i] == pre[jj].0;
                    assert(counts@[w].0 == pre[w].0);
                    assert(dsp[i] == counts@[w].0);
                }
            }
            assert forall|jj: int, kk: int|
                0 <= jj < kk < counts@.len() implies (#[trigger] counts@[jj]).0 != (
            #[trigger] counts@[kk]).0 by {
                if kk == pre.len() {
                    assert(counts@[jj].0 == pre[jj].0);
                    assert(pre[jj].0 != d);
                }
            }
        }
    }
}

/// Occurrence counts per distinct date.
fn tally_dates(dates: &Vec<DateTuple>) -> (counts: Vec<(DateTuple, u64)>)
    ensures
        tally_ok(counts@, dates@),
{
    let n = dates.len();
    let mut counts: Vec<(DateTuple, u64)> = Vec::new();
    proof {
        assert(tally_ok(counts@, dates@.subrange(0, 0)));
    }
    let mut i: usize = 0;
    while i < n
        invariant
            i <= n,
            n == dates@.len(),
            tally_ok(counts@, dates@.subrange(0, i as int)),
        decreases n - i,
    {
        let d = dates[i];
        proof {
            assert(dates@.subrange(0, i + 1) =~= dates@.subrange(0, i as int).push(
                dates@[i as int],
            ));
        }
        bump_date(&mut counts, d, Ghost(dates@.subrange(0, i as int)));
        i = i + 1;
    }
    proof {
        assert(dates@.subrange(0, n as int) =~= dates@);
    }
    counts
}

/// The dates of all timestamped bundles, collected in order.
fn collect_bundle_dates(bundles: &Vec<crate::model::Bundle>) -> (dates: Vec<DateTuple>)
    ensures
        dates@ == bundle_dates(bundles.deep_view()),
{
    let n = bundles.len();
    let mut dates: Vec<DateTuple> = Vec::new();
    let mut i: usize = 0;
    proof {
        assert(bundles.deep_view().skip(0) =~= bundles.deep_view());
        assert(dates@ + bundle_dates(bundles.deep_view()) =~= bundle_dates(
            bundles.deep_view(),
        ));
    }
    while i < n
        invariant
            i <= n,
            n == bundles@.len(),
            bundles.deep_view().len() == bundles@.len(),
            bundle_dates(bundles.deep_view()) == dates@ + bundle_dates(
                bundles.deep_view().skip(i as int),
            ),
        decreases n - i,
    {
        let ghost views = bundles.deep_view();
        let ghost tail = views.skip(i as int);
        proof {
            assert(tail[0] == views[i as int]);
            assert(tail.skip(1) =~= views.skip(i + 1));
            assert(views[i as int] == bundles@[i as int].deep_view());
        }
        let b = &bundles[i];
        match &b.timestamp {
            Some(ts) => {
                match parse_date_str(ts.as_str()) {
                    Some(d) => {
                        proof {
                            assert(bundle_date(tail[0]) == Some(d));
                            assert(seq![d] + bundle_dates(views.skip(i + 1)) =~= bundle_dates(
                                tail,
                            ));
                        }
                        dates.push(d);
                        proof {
                            assert(dates@ + bundle_dates(views.skip(i + 1)) =~= bundle_dates(
                                views,
                            ));
                        }
                    },
                    None => {
                        proof {
                            assert(bundle_date(tail[0]).is_none());
                        }
                    },
                }
            },
            None => {
                proof {
                    assert(bundle_date(tail[0]).is_none());
                }
            },
        }
        i = i + 1;
    }
    proof {
        assert(bundles.deep_view().skip(n as int) =~= Seq::<BundleV>::empty());
        assert(dates@ =~= bundle_dates(bundles.deep_view()));
    }
    dates
}

/// The date most bundles carry, greatest date winning ties; the fallback
/// when no bundle carries a timestamp.
#[verifier::rlimit(60)]
pub fn extract_date_from_bundles(
    bundles: &Vec<crate::model::Bundle>,
    fallback: DateTuple,
) -> (r: DateTuple)
    ensures
        bundle_dates(bundles.deep_view()).len() == 0 ==> r == fallback,
        bundle_dates(bundles.deep_view()).len() > 0 ==> is_best_date(
            bundle_dates(bundles.deep_view()),
            r,
        ),
{
    let dates = collect_bundle_dates(bundles);
    if dates.len() == 0 {
        return fallback;
    }
    let counts = tally_dates(&dates);
    proof {
        assert(counts@.len() > 0) by {
            assert(dates@[0] == dates@[0]);
            let j = choose|j: int| 0 <= j < counts@.len() && dates@[0] == counts@[j].0;
        }
    }
    let m = counts.len();
    let first = counts[0];
    let mut best_key = first.0;
    let mut best_count = first.1;
    let mut j: usize = 1;
    while j < m
        invariant
            1 <= j <= m,
            m == counts@.len(),
            exists|k: int|
                0 <= k < counts@.len() && (#[trigger] counts@[k]).0 == best_key && counts@[k].1
                    == best_count,
            forall|k: int|
                0 <= k < j ==> ((#[trigger] counts@[k]).1 < best_count || (counts@[k].1
                    == best_count && date_le(counts@[k].0, best_key))),
        decreases m - j,
    {
        let e = counts[j];
        let lt = date_lt_exec(best_key, e.0);
        if e.1 > best_count || (e.1 == best_count && lt) {
            best_key = e.0;
            best_count = e.1;
        } else {
            proof {
                if !(e.1 < best_count) {
                    assert(e.1 == best_count);
                    assert(!date_lt(best_key, e.0));
                    assert(date_le(e.0, best_key)) by {
                        lemma_date_total(e.0, best_key);
                    }
                }
            }
        }
        j = j + 1;
    }
    let ghost ds = dates@;
    proof {
        let k = choose|k: int|
            0 <= k < counts@.len() && (#[trigger] counts@[k]).0 == best_key && counts@[k].1
                == best_count;
        assert(best_count == count_date(ds, best_key));
        assert(exists|i: int| 0 <= i < ds.len() && ds[i] == best_key) by {
            let w = choose|i: int| 0 <= i < ds.len() && ds[i] == counts@[k].0;
        }
        assert forall|i: int|
            0 <= i < ds.len() implies (count_date(ds, #[trigger] ds[i]) < count_date(
            ds,
            best_key,
        ) || (count_date(ds, ds[i]) == count_date(ds, best_key) && date_le(
            ds[i],
            best_key,
        ))) by {
            let jj = choose|jj: int| 0 <= jj < counts@.len() && ds[i] == counts@[jj].0;
            assert(counts@[jj].1 == count_date(ds, ds[i]));
            assert(counts@[jj].1 < best_count || (counts@[jj].1 == best_count && date_le(
                counts@[jj].0,
                best_key,
            )));
        }
        assert(is_best_date(ds, best_key));
    }
    best_key
}

/// The date order is total.
pub proof fn lemma_date_total(a: DateTuple, b: DateTuple)
    ensures
        date_le(a, b) || date_le(b, a),
        date_le(a, b) && date_le(b, a) ==> a == b,
{
}

} // verus!
