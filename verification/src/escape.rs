//! Text repair and escaping: JSON string sanitising, CSV field quoting and
//! HTML entity escaping, each pinned to a character-level specification.

use vstd::prelude::*;
use crate::text::{str_chars, chars_to_string};

verus! {

/// One step of the sanitiser: what a single character contributes to the
/// output while scanning a JSON document, given the scanner state.
pub open spec fn sanitize_from(s: Seq<char>, in_string: bool, prev_bs: bool) -> Seq<char>
    decreases s.len(),
{
    if s.len() == 0 {
        Seq::empty()
    } else {
        let c = s[0];
        let rest = s.skip(1);
        if in_string {
            if prev_bs {
                seq![c] + sanitize_from(rest, true, false)
            } else if c == '\\' {
                seq![c] + sanitize_from(rest, true, true)
            } else if c == '"' {
                seq![c] + sanitize_from(rest, false, false)
            } else if c == '\t' {
                seq!['\\', 't'] + sanitize_from(rest, true, false)
            } else if c == '\n' {
                seq!['\\', 'n'] + sanitize_from(rest, true, false)
            } else if c == '\r' {
                seq!['\\', 'r'] + sanitize_from(rest, true, false)
            } else if (c as u32) < 32 {
                sanitize_from(rest, true, false)
            } else {
                seq![c] + sanitize_from(rest, true, false)
            }
        } else {
            if c == '"' {
                seq![c] + sanitize_from(rest, true, false)
            } else {
                seq![c] + sanitize_from(rest, false, false)
            }
        }
    }
}

/// The repaired form of a raw JSON document: inside string literals, raw
/// tab, newline and return characters become escape sequences and other
/// control characters are dropped; everything else is kept unchanged.
pub open spec fn sanitize_spec(s: Seq<char>) -> Seq<char> {
    sanitize_from(s, false, false)
}

/// Repair a JSON document whose string literals hold raw control characters.
pub fn sanitize_json_string(input: &str) -> (r: String)
    ensures
        r@ == sanitize_spec(input@),
{
    let v = str_chars(input);
    let n = v.len();
    let mut out: Vec<char> = Vec::new();
    let mut in_string = false;
    let mut prev_bs = false;
    let mut i: usize = 0;
    proof {
        assert(v@.skip(0) =~= v@);
    }
    while i < n
        invariant
            i <= n,
            n == v@.len(),
            v@ == input@,
            sanitize_spec(input@) == out@ + sanitize_from(v@.skip(i as int), in_string, prev_bs),
            in_string || !prev_bs,
        decreases n - i,
    {
        let c = v[i];
        let ghost tail = v@.skip(i as int);
        proof {
            assert(tail[0] == c);
            assert(tail.skip(1) =~= v@.skip(i + 1));
        }
        if in_string {
            if prev_bs {
                out.push(c);
                prev_bs = false;
            } else if c == '\\' {
                out.push(c);
                prev_bs = true;
            } else if c == '"' {
                out.push(c);
                in_string = false;
            } else if c == '\t' {
                out.push('\\');
                out.push('t');
            } else if c == '\n' {
                out.push('\\');
                out.push('n');
            } else if c == '\r' {
                out.push('\\');
                out.push('r');
            } else if (c as u32) < 32 {
                // dropped
            } else {
                out.push(c);
            }
        } else {
            if c == '"' {
                in_string = true;
            }
            out.push(c);
            prev_bs = false;
        }
        i = i + 1;
        proof {
            assert(sanitize_spec(input@) == out@ + sanitize_from(
                v@.skip(i as int),
                in_string,
                prev_bs,
            )) by {
                assert(out@ + sanitize_from(v@.skip(i as int), in_string, prev_bs)
                    =~= sanitize_spec(input@));
            }
        }
    }
    proof {
        assert(v@.skip(n as int) =~= Seq::<char>::empty());
        assert(out@ =~= sanitize_spec(input@));
    }
    chars_to_string(&out)
}

/// Characters that force a CSV field to be quoted.
pub open spec fn csv_special(c: char) -> bool {
    c == ',' || c == '"' || c == '\n' || c == '\r'
}

pub open spec fn needs_csv_quoting(s: Seq<char>) -> bool {
    exists|i: int| 0 <= i < s.len() && csv_special(#[trigger] s[i])
}

/// The body of a quoted CSV field: every quote is doubled.
pub open spec fn csv_doubled(s: Seq<char>) -> Seq<char>
    decreases s.len(),
{
    if s.len() == 0 {
        Seq::empty()
    } else if s.last() == '"' {
        csv_doubled(s.drop_last()) + seq!['"', '"']
    } else {
        csv_doubled(s.drop_last()) + seq![s.last()]
    }
}

/// A field as it appears in a CSV record: quoted, with doubled quotes, when
/// it holds a separator, quote or line break; verbatim otherwise.
pub open spec fn csv_escape_spec(s: Seq<char>) -> Seq<char> {
    if needs_csv_quoting(s) {
        seq!['"'] + csv_doubled(s) + seq!['"']
    } else {
        s
    }
}

/// Escape one field for CSV output.
pub fn csv_escape(field: &str) -> (r: String)
    ensures
        r@ == csv_escape_spec(field@),
{
    let v = str_chars(field);
    let n = v.len();
    let mut special = false;
    let mut i: usize = 0;
    while i < n
        invariant
            i <= n,
            n == v@.len(),
            v@ == field@,
            special == exists|j: int| 0 <= j < i && csv_special(#[trigger] v@[j]),
        decreases n - i,
    {
        let c = v[i];
        if c == ',' || c == '"' || c == '\n' || c == '\r' {
            special = true;
        }
        i = i + 1;
    }
    if !special {
        proof {
            assert(!needs_csv_quoting(field@));
        }
        return chars_to_string(&v);
    }
    let mut out: Vec<char> = Vec::new();
    out.push('"');
    let mut i: usize = 0;
    while i < n
        invariant
            i <= n,
            n == v@.len(),
            v@ == field@,
            out@ == seq!['"'] + csv_doubled(v@.subrange(0, i as int)),
        decreases n - i,
    {
        let c = v[i];
        proof {
            assert(v@.subrange(0, i + 1).drop_last() =~= v@.subrange(0, i as int));
            assert(v@.subrange(0, i + 1).last() == c);
        }
        if c == '"' {
            out.push('"');
            out.push('"');
        } else {
            out.push(c);
        }
        proof {
            assert(out@ =~= seq!['"'] + csv_doubled(v@.subrange(0, i + 1)));
        }
        i = i + 1;
    }
    out.push('"');
    proof {
        assert(v@.subrange(0, n as int) =~= v@);
        assert(out@ =~= seq!['"'] + csv_doubled(v@) + seq!['"']);
    }
    chars_to_string(&out)
}

/// What one character contributes to HTML-escaped text.
pub open spec fn html_escape_char(c: char) -> Seq<char> {
    if c == '&' {
        seq!['&', 'a', 'm', 'p', ';']
    } else if c == '<' {
        seq!['&', 'l', 't', ';']
    } else if c == '>' {
        seq!['&', 'g', 't', ';']
    } else if c == '"' {
        seq!['&', 'q', 'u', 'o', 't', ';']
    } else {
        seq![c]
    }
}

pub open spec fn html_escape_spec(s: Seq<char>) -> Seq<char>
    decreases s.len(),
{
    if s.len() == 0 {
        Seq::empty()
    } else {
        html_escape_spec(s.drop_last()) + html_escape_char(s.last())
    }
}

/// Escape text for inclusion in HTML: `&`, `<`, `>` and `"` become entities.
pub fn html_escape(s: &str) -> (r: String)
    ensures
        r@ == html_escape_spec(s@),
{
    let v = str_chars(s);
    let n = v.len();
    let mut out: Vec<char> = Vec::new();
    let mut i: usize = 0;
    while i < n
        invariant
            i <= n,
            n == v@.len(),
            v@ == s@,
            out@ == html_escape_spec(v@.subrange(0, i as int)),
        decreases n - i,
    {
        let c = v[i];
        proof {
            assert(v@.subrange(0, i + 1).drop_last() =~= v@.subrange(0, i as int));
            assert(v@.subrange(0, i + 1).last() == c);
        }
        if c == '&' {
            out.push('&');
            out.push('a');
            out.push('m');
            out.push('p');
            out.push(';');
        } else if c == '<' {
            out.push('&');
            out.push('l');
            out.push('t');
            out.push(';');
        } else if c == '>' {
            out.push('&');
            out.push('g');
            out.push('t');
            out.push(';');
        } else if c == '"' {
            out.push('&');
            out.push('q');
            out.push('u');
            out.push('o');
            out.push('t');
            out.push(';');
        } else {
            out.push(c);
        }
        proof {
            assert(out@ =~= html_escape_spec(v@.subrange(0, i + 1)));
        }
        i = i + 1;
    }
    proof {
        assert(v@.subrange(0, n as int) =~= v@);
    }
    chars_to_string(&out)
}

} // verus!
