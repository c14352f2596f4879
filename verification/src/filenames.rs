//! Dates read from export file names: the stem of a path, a `dd.mm.yyyy`
//! piece between underscores, and the `Packungen-yyyy.mm.dd` convention.

use vstd::prelude::*;
use crate::gtin::all_digits;
use crate::text::{str_chars, chars_to_string, split_chars, split_char, find_sub, find_seq};

verus! {

/// Index of the last occurrence of `c`, or -1 when absent.
pub open spec fn last_index_of(s: Seq<char>, c: char) -> int
    decreases s.len(),
{
    if s.len() == 0 {
        -1
    } else if s.last() == c {
        s.len() - 1
    } else {
        last_index_of(s.drop_last(), c)
    }
}

pub proof fn lemma_last_index(s: Seq<char>, c: char)
    ensures
        last_index_of(s, c) == -1 ==> forall|i: int| 0 <= i < s.len() ==> s[i] != c,
        last_index_of(s, c) != -1 ==> {
            let r = last_index_of(s, c);
            &&& 0 <= r < s.len()
            &&& s[r] == c
            &&& forall|i: int| r < i < s.len() ==> s[i] != c
        },
    decreases s.len(),
{
    if s.len() > 0 && s.last() != c {
        lemma_last_index(s.drop_last(), c);
        let r1 = last_index_of(s.drop_last(), c);
        if r1 == -1 {
            assert forall|i: int| 0 <= i < s.len() implies s[i] != c by {
                if i < s.len() - 1 {
                    assert(s.drop_last()[i] == s[i]);
                    assert(s.drop_last()[i] != c);
                }
            }
        } else {
            assert(s.drop_last()[r1] == s[r1]);
            assert forall|i: int| r1 < i < s.len() implies s[i] != c by {
                if i < s.len() - 1 {
                    assert(s.drop_last()[i] == s[i]);
                    assert(s.drop_last()[i] != c);
                }
            }
        }
    }
}

/// Index of the last occurrence of `c` in `v`, or `None`.
pub fn find_last(v: &Vec<char>, c: char) -> (r: Option<usize>)
    ensures
        r matches Some(i) ==> i == last_index_of(v@, c),
        r.is_none() ==> last_index_of(v@, c) == -1,
{
    let n = v.len();
    let mut i: usize = n;
    while i > 0
        invariant
            i <= n,
            n == v@.len(),
            forall|j: int| i <= j < n ==> v@[j] != c,
        decreases i,
    {
        if v[i - 1] == c {
            proof {
                lemma_last_index(v@, c);
                let r = last_index_of(v@, c);
                if r == -1 {
                    assert(v@[i - 1] != c);
                }
                if r > i - 1 {
                    assert(v@[r] != c);
                }
                if r < i - 1 {
                    assert(v@[i - 1] != c);
                }
            }
            return Some(i - 1);
        }
        i = i - 1;
    }
    proof {
        lemma_last_index(v@, c);
        let r = last_index_of(v@, c);
        if r != -1 {
            assert(v@[r] != c);
        }
    }
    None
}

/// A copy of `v[from..to]`.
pub fn copy_range(v: &Vec<char>, from: usize, to: usize) -> (r: Vec<char>)
    requires
        from <= to,
        to <= v@.len(),
    ensures
        r@ == v@.subrange(from as int, to as int),
{
    let mut out: Vec<char> = Vec::new();
    let mut i: usize = from;
    while i < to
        invariant
            from <= i <= to,
            to <= v@.len(),
            out@ == v@.subrange(from as int, i as int),
        decreases to - i,
    {
        out.push(v[i]);
        proof {
            assert(out@ =~= v@.subrange(from as int, i + 1));
        }
        i = i + 1;
    }
    out
}

/// The stem of a path: the part after the last `/`, with everything from
/// its last `.` on removed, unless that dot is the leading character.
pub open spec fn file_stem_spec(path: Seq<char>) -> Seq<char> {
    let sl = last_index_of(path, '/');
    let name = if sl == -1 {
        path
    } else {
        path.skip(sl + 1)
    };
    let d = last_index_of(name, '.');
    if d <= 0 {
        name
    } else {
        name.subrange(0, d)
    }
}

/// The stem of a path, as characters.
pub fn file_stem_chars(v: &Vec<char>) -> (r: Vec<char>)
    ensures
        r@ == file_stem_spec(v@),
{
    let n = v.len();
    proof {
        lemma_last_index(v@, '/');
    }
    let name_start: usize = match find_last(v, '/') {
        Some(k) => k + 1,
        None => 0,
    };
    proof {
        if last_index_of(v@, '/') == -1 {
            assert(v@.skip(0) =~= v@);
        }
    }
    let name = copy_range(v, name_start, n);
    proof {
        let sl = last_index_of(v@, '/');
        if sl == -1 {
            assert(name@ =~= v@);
        } else {
            assert(name@ =~= v@.skip(sl + 1));
        }
    }
    proof {
        lemma_last_index(name@, '.');
    }
    match find_last(&name, '.') {
        Some(d) => {
            if d == 0 {
                name
            } else {
                copy_range(&name, 0, d)
            }
        },
        None => name,
    }
}

/// Whether a piece looks like `dd.mm.yyyy`: three dot-separated runs of
/// digits, at most two, at most two, exactly four long.
pub open spec fn is_ddmmyyyy(part: Seq<char>) -> bool {
    let segs = split_char(part, '.');
    &&& segs.len() == 3
    &&& segs[0].len() <= 2
    &&& segs[1].len() <= 2
    &&& segs[2].len() == 4
    &&& all_digits(segs[0])
    &&& all_digits(segs[1])
    &&& all_digits(segs[2])
}

/// Whether every character of `v` is a digit.
pub fn all_digits_exec(v: &Vec<char>) -> (r: bool)
    ensures
        r == all_digits(v@),
{
    let n = v.len();
    let mut i: usize = 0;
    while i < n
        invariant
            i <= n,
            n == v@.len(),
            forall|j: int| 0 <= j < i ==> crate::gtin::is_digit(#[trigger] v@[j]),
        decreases n - i,
    {
        let u = v[i] as u32;
        if !(48 <= u && u <= 57) {
            proof {
                assert(!crate::gtin::is_digit(v@[i as int]));
            }
            return false;
        }
        i = i + 1;
    }
    true
}

/// Whether a piece matches the `dd.mm.yyyy` shape.
pub fn is_ddmmyyyy_exec(p: &Vec<char>) -> (r: bool)
    ensures
        r == is_ddmmyyyy(p@),
{
    let segs = split_chars(p, '.');
    proof {
        assert(segs@.map_values(|q: Vec<char>| q@) == split_char(p@, '.'));
    }
    if segs.len() != 3 {
        return false;
    }
    proof {
        assert(segs@.map_values(|q: Vec<char>| q@)[0] == segs@[0]@);
        assert(segs@.map_values(|q: Vec<char>| q@)[1] == segs@[1]@);
        assert(segs@.map_values(|q: Vec<char>| q@)[2] == segs@[2]@);
    }
    if segs[0].len() > 2 || segs[1].len() > 2 || segs[2].len() != 4 {
        return false;
    }
    let d0 = all_digits_exec(&segs[0]);
    let d1 = all_digits_exec(&segs[1]);
    let d2 = all_digits_exec(&segs[2]);
    d0 && d1 && d2
}

/// The first piece of the given sequence matching `dd.mm.yyyy`.
pub open spec fn first_ddmmyyyy(parts: Seq<Seq<char>>) -> Option<Seq<char>>
    decreases parts.len(),
{
    if parts.len() == 0 {
        None
    } else if is_ddmmyyyy(parts[0]) {
        Some(parts[0])
    } else {
        first_ddmmyyyy(parts.skip(1))
    }
}

/// Index of the first `dd.mm.yyyy` piece, tied to `first_ddmmyyyy`.
fn find_ddmmyyyy(parts: &Vec<Vec<char>>) -> (r: Option<usize>)
    ensures
        r matches Some(i) ==> i < parts@.len() && first_ddmmyyyy(
            parts@.map_values(|p: Vec<char>| p@),
        ) == Some(parts@[i as int]@),
        r.is_none() ==> first_ddmmyyyy(parts@.map_values(|p: Vec<char>| p@)).is_none(),
{
    let ghost pv = parts@.map_values(|p: Vec<char>| p@);
    let n = parts.len();
    let mut i: usize = 0;
    proof {
        assert(pv.skip(0) =~= pv);
    }
    while i < n
        invariant
            i <= n,
            n == parts@.len(),
            pv == parts@.map_values(|p: Vec<char>| p@),
            pv.len() == n,
            first_ddmmyyyy(pv) == first_ddmmyyyy(pv.skip(i as int)),
        decreases n - i,
    {
        let ghost tail = pv.skip(i as int);
        proof {
            assert(tail[0] == pv[i as int]);
            assert(pv[i as int] == parts@[i as int]@);
            assert(tail.skip(1) =~= pv.skip(i + 1));
        }
        if is_ddmmyyyy_exec(&parts[i]) {
            proof {
                assert(first_ddmmyyyy(tail) == Some(pv[i as int]));
            }
            return Some(i);
        }
        i = i + 1;
    }
    proof {
        assert(pv.skip(n as int) =~= Seq::<Seq<char>>::empty());
    }
    None
}

/// The `dd.mm.yyyy` piece of a file name, read from the underscore-separated
/// pieces of its stem.
pub open spec fn extract_filename_date_spec(path: Seq<char>) -> Option<Seq<char>> {
    first_ddmmyyyy(split_char(file_stem_spec(path), '_'))
}

/// Find a `dd.mm.yyyy` date piece in a file name.
pub fn extract_filename_date(path: &str) -> (r: Option<String>)
    ensures
        r matches Some(d) ==> extract_filename_date_spec(path@) == Some(d@),
        r.is_none() ==> extract_filename_date_spec(path@).is_none(),
{
    let v = str_chars(path);
    let stem = file_stem_chars(&v);
    let parts = split_chars(&stem, '_');
    proof {
        assert(parts@.map_values(|p: Vec<char>| p@) == split_char(stem@, '_'));
    }
    match find_ddmmyyyy(&parts) {
        Some(i) => Some(chars_to_string(&parts[i])),
        None => None,
    }
}

/// The pattern of the packaging-export naming convention.
pub open spec fn packungen_pat() -> Seq<char> {
    seq!['P', 'a', 'c', 'k', 'u', 'n', 'g', 'e', 'n', '-']
}

/// The date piece after `Packungen-` in a stem: everything after the first
/// occurrence, accepted when it splits into three digit runs, the first
/// exactly four long.
pub open spec fn packungen_date(stem: Seq<char>) -> Option<Seq<char>> {
    let p = find_seq(stem, packungen_pat());
    if p == -1 {
        None
    } else {
        let dp = stem.skip(p + 10);
        let segs = split_char(dp, '.');
        if segs.len() == 3 && segs[0].len() == 4 && all_digits(segs[0]) && all_digits(segs[1])
            && all_digits(segs[2]) {
            Some(dp)
        } else {
            None
        }
    }
}

/// The date named by a packaging-export file: the `Packungen-yyyy.mm.dd`
/// convention when present and well-shaped, else a `dd.mm.yyyy` piece.
pub open spec fn extract_swissmedic_date_spec(path: Seq<char>) -> Option<Seq<char>> {
    let stem = file_stem_spec(path);
    if packungen_date(stem).is_some() {
        packungen_date(stem)
    } else {
        first_ddmmyyyy(split_char(stem, '_'))
    }
}

/// Read the export date out of a packaging-export file name.
pub fn extract_swissmedic_date(filename: &str) -> (r: Option<String>)
    ensures
        r matches Some(d) ==> extract_swissmedic_date_spec(filename@) == Some(d@),
        r.is_none() ==> extract_swissmedic_date_spec(filename@).is_none(),
{
    let v = str_chars(filename);
    let stem = file_stem_chars(&v);
    let mut pat: Vec<char> = Vec::new();
    pat.push('P');
    pat.push('a');
    pat.push('c');
    pat.push('k');
    pat.push('u');
    pat.push('n');
    pat.push('g');
    pat.push('e');
    pat.push('n');
    pat.push('-');
    proof {
        assert(pat@ =~= packungen_pat());
    }
    match find_sub(&stem, &pat) {
        Some(p) => {
            let sl = stem.len();
            proof {
                crate::text::lemma_find_seq(stem@, pat@);
                assert(p + 10 <= stem@.len());
            }
            let dp = copy_range(&stem, p + 10, sl);
            proof {
                assert(dp@ =~= stem@.skip(p + 10));
            }
            let segs = split_chars(&dp, '.');
            proof {
                assert(segs@.map_values(|q: Vec<char>| q@) == split_char(dp@, '.'));
            }
            if segs.len() == 3 {
                proof {
                    assert(segs@.map_values(|q: Vec<char>| q@)[0] == segs@[0]@);
                    assert(segs@.map_values(|q: Vec<char>| q@)[1] == segs@[1]@);
                    assert(segs@.map_values(|q: Vec<char>| q@)[2] == segs@[2]@);
                }
                if segs[0].len() == 4 {
                    let d0 = all_digits_exec(&segs[0]);
                    let d1 = all_digits_exec(&segs[1]);
                    let d2 = all_digits_exec(&segs[2]);
                    if d0 && d1 && d2 {
                        return Some(chars_to_string(&dp));
                    }
                }
            }
            let parts = split_chars(&stem, '_');
            proof {
                assert(parts@.map_values(|q: Vec<char>| q@) == split_char(stem@, '_'));
            }
            match find_ddmmyyyy(&parts) {
                Some(i) => Some(chars_to_string(&parts[i])),
                None => None,
            }
        },
        None => {
            let parts = split_chars(&stem, '_');
            proof {
                assert(parts@.map_values(|q: Vec<char>| q@) == split_char(stem@, '_'));
            }
            match find_ddmmyyyy(&parts) {
                Some(i) => Some(chars_to_string(&parts[i])),
                None => None,
            }
        },
    }
}

} // verus!
