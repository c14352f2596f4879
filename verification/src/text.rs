//! Character-level utilities shared by the parsing and escaping code:
//! conversion between strings and character vectors, equality, substring
//! search and splitting, each specified over character sequences.

use vstd::prelude::*;
use vstd::string::StrSliceExecFns;

verus! {

/// Equality of two string slices, stated over their character views.
pub fn str_eq(a: &str, b: &str) -> (r: bool)
    ensures
        r == (a@ == b@),
{
    let sa: String = a.to_owned();
    let sb: String = b.to_owned();
    sa == sb
}

/// The characters of a string slice, one `char` per element.
pub fn str_chars(s: &str) -> (r: Vec<char>)
    ensures
        r@ == s@,
{
    let n: usize = s.unicode_len();
    let mut out: Vec<char> = Vec::new();
    let mut i: usize = 0;
    while i < n
        invariant
            i <= n,
            n == s@.len(),
            out@ == s@.subrange(0, i as int),
        decreases n - i,
    {
        let c = s.get_char(i);
        out.push(c);
        proof {
            assert(out@ =~= s@.subrange(0, i + 1 as int));
        }
        i = i + 1;
    }
    proof {
        assert(out@ =~= s@);
    }
    out
}

/// Relies on `String: FromIterator<char>`: collecting characters yields a
/// string holding exactly those characters in order.
#[verifier::external_body]
pub fn chars_to_string(v: &Vec<char>) -> (r: String)
    ensures
        r@ == v@,
{
    v.iter().collect()
}

/// Index of the first occurrence of `sep`, or -1 when absent.
pub open spec fn find_char(s: Seq<char>, sep: char) -> int
    decreases s.len(),
{
    if s.len() == 0 {
        -1
    } else if s[0] == sep {
        0
    } else {
        let r = find_char(s.skip(1), sep);
        if r == -1 {
            -1
        } else {
            r + 1
        }
    }
}

pub proof fn lemma_find_char(s: Seq<char>, sep: char)
    ensures
        find_char(s, sep) == -1 ==> forall|i: int| 0 <= i < s.len() ==> s[i] != sep,
        find_char(s, sep) != -1 ==> {
            let r = find_char(s, sep);
            &&& 0 <= r < s.len()
            &&& s[r] == sep
            &&& forall|i: int| 0 <= i < r ==> s[i] != sep
        },
    decreases s.len(),
{
    if s.len() > 0 && s[0] != sep {
        lemma_find_char(s.skip(1), sep);
        let r1 = find_char(s.skip(1), sep);
        if r1 == -1 {
            assert forall|i: int| 0 <= i < s.len() implies s[i] != sep by {
                if i >= 1 {
                    assert(s.skip(1)[i - 1] == s[i]);
                    assert(s.skip(1)[i - 1] != sep);
                }
            }
        } else {
            assert(s.skip(1)[r1] == s[r1 + 1]);
            assert forall|i: int| 0 <= i < r1 + 1 implies s[i] != sep by {
                if i >= 1 {
                    assert(s.skip(1)[i - 1] == s[i]);
                    assert(s.skip(1)[i - 1] != sep);
                }
            }
        }
    }
}

/// The pieces of `s` between occurrences of `sep`; always at least one piece.
pub open spec fn split_char(s: Seq<char>, sep: char) -> Seq<Seq<char>>
    decreases s.len(),
{
    let i = find_char(s, sep);
    if 0 <= i < s.len() {
        seq![s.subrange(0, i)] + split_char(s.skip(i + 1), sep)
    } else {
        seq![s]
    }
}

/// Whether `pat` occurs in `s` starting at position `i`.
pub open spec fn match_at(s: Seq<char>, pat: Seq<char>, i: int) -> bool {
    0 <= i && i + pat.len() <= s.len() && s.subrange(i, i + pat.len()) == pat
}

/// Index of the first occurrence of `pat` in `s`, or -1 when absent.
pub open spec fn find_seq(s: Seq<char>, pat: Seq<char>) -> int
    decreases s.len(),
{
    if s.len() < pat.len() {
        -1
    } else if s.subrange(0, pat.len() as int) == pat {
        0
    } else if s.len() == pat.len() {
        -1
    } else {
        let r = find_seq(s.skip(1), pat);
        if r == -1 {
            -1
        } else {
            r + 1
        }
    }
}

pub open spec fn contains_seq(s: Seq<char>, pat: Seq<char>) -> bool {
    find_seq(s, pat) != -1
}

pub proof fn lemma_find_seq(s: Seq<char>, pat: Seq<char>)
    ensures
        find_seq(s, pat) == -1 ==> forall|i: int| !match_at(s, pat, i),
        find_seq(s, pat) != -1 ==> {
            let r = find_seq(s, pat);
            &&& match_at(s, pat, r)
            &&& forall|i: int| 0 <= i < r ==> !match_at(s, pat, i)
        },
    decreases s.len(),
{
    if s.len() < pat.len() {
        assert(forall|i: int| !match_at(s, pat, i));
    } else if s.subrange(0, pat.len() as int) == pat {
        assert(match_at(s, pat, 0));
    } else {
        assert(!match_at(s, pat, 0));
        if s.len() == pat.len() {
            assert forall|i: int| !match_at(s, pat, i) by {
                if 1 <= i {
                    assert(i + pat.len() > s.len());
                }
            }
        } else {
            lemma_find_seq(s.skip(1), pat);
            assert forall|i: int| 1 <= i && i + pat.len() <= s.len() implies (match_at(
                s,
                pat,
                i,
            ) <==> match_at(s.skip(1), pat, i - 1)) by {
                assert(s.skip(1).len() == s.len() - 1);
                if i + pat.len() <= s.len() {
                    assert(s.subrange(i, i + pat.len()) =~= s.skip(1).subrange(
                        i - 1,
                        i - 1 + pat.len(),
                    ));
                }
            }
            let r1 = find_seq(s.skip(1), pat);
            if r1 == -1 {
                assert forall|i: int| !match_at(s, pat, i) by {
                    if 1 <= i && i + pat.len() <= s.len() {
                        assert(!match_at(s.skip(1), pat, i - 1));
                    }
                }
            } else {
                assert(match_at(s.skip(1), pat, r1));
                assert(match_at(s, pat, r1 + 1));
            }
        }
    }
}

/// Whether the characters of `pat` occur contiguously in `v`, from position
/// `i` on; checked directly, used to realise the substring search.
fn match_at_exec(v: &Vec<char>, pat: &Vec<char>, i: usize) -> (r: bool)
    requires
        i + pat@.len() <= v@.len(),
    ensures
        r == match_at(v@, pat@, i as int),
{
    let n = v.len();
    let m = pat.len();
    let mut j: usize = 0;
    while j < m
        invariant
            j <= m,
            m == pat@.len(),
            n == v@.len(),
            i + m <= n,
            forall|k: int| 0 <= k < j ==> v@[i + k] == pat@[k],
        decreases m - j,
    {
        if v[i + j] != pat[j] {
            proof {
                assert(v@.subrange(i as int, i + m) != pat@) by {
                    assert(v@.subrange(i as int, i + m)[j as int] != pat@[j as int]);
                }
            }
            return false;
        }
        j = j + 1;
    }
    proof {
        assert(v@.subrange(i as int, i + m) =~= pat@);
    }
    true
}

/// First index at which `pat` occurs in `v`, or `None` when it never does.
pub fn find_sub(v: &Vec<char>, pat: &Vec<char>) -> (r: Option<usize>)
    ensures
        r matches Some(i) ==> i == find_seq(v@, pat@),
        r.is_none() ==> find_seq(v@, pat@) == -1,
{
    proof {
        lemma_find_seq(v@, pat@);
    }
    let n = v.len();
    let m = pat.len();
    if m > n {
        return None;
    }
    if m == 0 {
        proof {
            assert(v@.subrange(0, 0) =~= pat@);
            assert(match_at(v@, pat@, 0));
            lemma_find_seq(v@, pat@);
        }
        return Some(0);
    }
    let mut i: usize = 0;
    while i <= n - m
        invariant
            0 <= i <= n - m + 1,
            1 <= m <= n,
            n == v@.len(),
            m == pat@.len(),
            forall|k: int| 0 <= k < i ==> !match_at(v@, pat@, k),
        decreases n - i,
    {
        if match_at_exec(v, pat, i) {
            proof {
                lemma_find_seq(v@, pat@);
                let r = find_seq(v@, pat@);
                assert(r != -1);
                assert(r <= i);
                assert(r >= i);
            }
            return Some(i);
        }
        i = i + 1;
    }
    proof {
        assert forall|k: int| !match_at(v@, pat@, k) by {
            if 0 <= k && k + m <= n {
                assert(k < i);
            }
        }
        lemma_find_seq(v@, pat@);
    }
    None
}

/// Whether the string `hay` holds the string `needle` as a substring.
pub fn str_contains(hay: &str, needle: &str) -> (r: bool)
    ensures
        r == contains_seq(hay@, needle@),
{
    let hv = str_chars(hay);
    let nv = str_chars(needle);
    match find_sub(&hv, &nv) {
        Some(_) => true,
        None => false,
    }
}

/// The pieces of `v` between occurrences of `sep`, in order.
pub fn split_chars(v: &Vec<char>, sep: char) -> (parts: Vec<Vec<char>>)
    ensures
        parts@.map_values(|p: Vec<char>| p@) == split_char(v@, sep),
{
    let n = v.len();
    let mut parts: Vec<Vec<char>> = Vec::new();
    let mut cur: Vec<char> = Vec::new();
    let mut seg_start: usize = 0;
    let mut i: usize = 0;
    proof {
        assert(v@.skip(0) =~= v@);
        assert(parts@.map_values(|p: Vec<char>| p@) + split_char(v@, sep) =~= split_char(
            v@,
            sep,
        ));
        assert(cur@ =~= v@.subrange(0, 0));
    }
    while i < n
        invariant
            0 <= seg_start <= i <= n,
            n == v@.len(),
            cur@ == v@.subrange(seg_start as int, i as int),
            forall|k: int| seg_start <= k < i ==> v@[k] != sep,
            split_char(v@, sep) == parts@.map_values(|p: Vec<char>| p@) + split_char(
                v@.skip(seg_start as int),
                sep,
            ),
        decreases n - i,
    {
        let c = v[i];
        if c == sep {
            proof {
                let tail = v@.skip(seg_start as int);
                lemma_find_char(tail, sep);
                assert(forall|k: int|
                    0 <= k < tail.len() ==> #[trigger] tail[k] == v@[seg_start + k]);
                assert(tail[i - seg_start] == sep);
                assert(find_char(tail, sep) == i - seg_start) by {
                    let r = find_char(tail, sep);
                    if r == -1 {
                        assert(tail[i - seg_start] != sep);
                    } else {
                        if r < i - seg_start {
                            assert(v@[seg_start + r] == sep);
                        }
                        if r > i - seg_start {
                            assert(tail[i - seg_start] != sep);
                        }
                    }
                }
                assert(tail.subrange(0, i - seg_start) =~= v@.subrange(
                    seg_start as int,
                    i as int,
                ));
                assert(tail.skip(i - seg_start + 1) =~= v@.skip(i + 1));
                assert(split_char(tail, sep) == seq![cur@] + split_char(v@.skip(i + 1), sep));
                assert((parts@.push(cur)).map_values(|p: Vec<char>| p@) =~= parts@.map_values(
                    |p: Vec<char>| p@,
                ).push(cur@));
                assert(parts@.map_values(|p: Vec<char>| p@) + (seq![cur@] + split_char(
                    v@.skip(i + 1),
                    sep,
                )) =~= parts@.map_values(|p: Vec<char>| p@).push(cur@) + split_char(
                    v@.skip(i + 1),
                    sep,
                ));
            }
            parts.push(cur);
            cur = Vec::new();
            seg_start = i + 1;
            proof {
                assert(cur@ =~= v@.subrange(seg_start as int, seg_start as int));
            }
        } else {
            cur.push(c);
            proof {
                assert(cur@ =~= v@.subrange(seg_start as int, i + 1));
            }
        }
        i = i + 1;
    }
    proof {
        let tail = v@.skip(seg_start as int);
        lemma_find_char(tail, sep);
        assert(forall|k: int| 0 <= k < tail.len() ==> #[trigger] tail[k] == v@[seg_start + k]);
        assert(find_char(tail, sep) == -1) by {
            let r = find_char(tail, sep);
            if r != -1 {
                assert(v@[seg_start + r] == sep);
            }
        }
        assert(split_char(tail, sep) == seq![tail]);
        assert(tail =~= cur@);
        assert(parts@.map_values(|p: Vec<char>| p@) + seq![cur@] =~= (parts@.push(
            cur,
        )).map_values(|p: Vec<char>| p@));
    }
    parts.push(cur);
    parts
}

} // verus!
