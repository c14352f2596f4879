//! Snapshot ingestion: newline-delimited documents first, and a fallback
//! scan that isolates top-level objects of concatenated JSON by brace depth,
//! respecting string literals and escapes.

use vstd::prelude::*;
use vstd::string::StringExecFns;
use crate::json::{parse_json, json_get, json_str, json_array, json_number_string};
use crate::model::{Bundle, Resource, ProductDef, AuthDef, OtherDef, Identifier, PriceExt};
use crate::text::{str_chars, chars_to_string, split_chars, str_eq, str_contains};
use crate::prices::parse_money;

verus! {

/// Loading failed: neither pass found a single bundle document.
#[derive(Clone, Copy, PartialEq, Eq, Structural, Debug)]
pub enum LoadError {
    NoBundles,
}

impl LoadError {
    /// A human-readable account of the failure.
    pub fn message(&self) -> (r: String)
        ensures
            r@.len() > 0,
    {
        proof {
            reveal_strlit("no bundle documents could be read from the input");
        }
        String::from_str("no bundle documents could be read from the input")
    }
}

/// Whitespace stripped from line ends and starts.
pub open spec fn is_space(c: char) -> bool {
    c == ' ' || c == '\t' || c == '\r' || c == '\n' || c == '\u{0B}' || c == '\u{0C}'
}

pub open spec fn trim_left(s: Seq<char>) -> Seq<char>
    decreases s.len(),
{
    if s.len() > 0 && is_space(s[0]) {
        trim_left(s.skip(1))
    } else {
        s
    }
}

pub open spec fn trim_right(s: Seq<char>) -> Seq<char>
    decreases s.len(),
{
    if s.len() > 0 && is_space(s.last()) {
        trim_right(s.drop_last())
    } else {
        s
    }
}

/// A line with leading and trailing whitespace removed.
pub open spec fn trim_spec(s: Seq<char>) -> Seq<char> {
    trim_right(trim_left(s))
}

proof fn lemma_trim_left_skip(s: Seq<char>, i: int)
    requires
        0 <= i <= s.len(),
        forall|j: int| 0 <= j < i ==> is_space(#[trigger] s[j]),
        i < s.len() ==> !is_space(s[i]),
    ensures
        trim_left(s) == s.skip(i),
    decreases i,
{
    if i == 0 {
        assert(s.skip(0) =~= s);
    } else {
        assert(is_space(s[0]));
        assert(forall|j: int| 0 <= j < s.skip(1).len() ==> #[trigger] s.skip(1)[j] == s[j + 1]);
        lemma_trim_left_skip(s.skip(1), i - 1);
        assert(s.skip(1).skip(i - 1) =~= s.skip(i));
    }
}

proof fn lemma_trim_right_take(s: Seq<char>, i: int)
    requires
        0 <= i <= s.len(),
        forall|j: int| i <= j < s.len() ==> is_space(#[trigger] s[j]),
        i > 0 ==> !is_space(s[i - 1]),
    ensures
        trim_right(s) == s.subrange(0, i),
    decreases s.len() - i,
{
    if i == s.len() {
        assert(s.subrange(0, i) =~= s);
        if s.len() > 0 {
            assert(!is_space(s.last()));
        }
    } else {
        assert(is_space(s.last()));
        assert(forall|j: int|
            0 <= j < s.len() - 1 ==> #[trigger] s.drop_last()[j] == s[j]);
        lemma_trim_right_take(s.drop_last(), i);
        assert(s.drop_last().subrange(0, i) =~= s.subrange(0, i));
    }
}

/// Strip whitespace from both ends of a character vector.
pub fn trim_chars(v: &Vec<char>) -> (r: Vec<char>)
    ensures
        r@ == trim_spec(v@),
{
    let n = v.len();
    let mut a: usize = 0;
    while a < n && is_space_exec(v[a])
        invariant
            a <= n,
            n == v@.len(),
            forall|j: int| 0 <= j < a ==> is_space(#[trigger] v@[j]),
        decreases n - a,
    {
        a = a + 1;
    }
    let mut b: usize = n;
    while b > a && is_space_exec(v[b - 1])
        invariant
            a <= b <= n,
            n == v@.len(),
            forall|j: int| 0 <= j < a ==> is_space(#[trigger] v@[j]),
            a < n ==> !is_space(v@[a as int]),
            forall|j: int| b <= j < n ==> is_space(#[trigger] v@[j]),
        decreases b,
    {
        b = b - 1;
    }
    let r = crate::filenames::copy_range(v, a, b);
    proof {
        lemma_trim_left_skip(v@, a as int);
        let t = v@.skip(a as int);
        assert(forall|j: int| 0 <= j < t.len() ==> #[trigger] t[j] == v@[a + j]);
        if b == a {
            assert(forall|j: int| (b - a) <= j < t.len() ==> is_space(#[trigger] t[j]));
        }
        lemma_trim_right_take(t, b - a);
        assert(t.subrange(0, b - a) =~= v@.subrange(a as int, b as int));
    }
    r
}

/// Whether the character counts as whitespace.
fn is_space_exec(c: char) -> (r: bool)
    ensures
        r == is_space(c),
{
    c == ' ' || c == '\t' || c == '\r' || c == '\n' || c == '\u{0B}' || c == '\u{0C}'
}

/// The text without line breaks, as the fallback pass sees it.
pub open spec fn without_line_breaks(s: Seq<char>) -> Seq<char>
    decreases s.len(),
{
    if s.len() == 0 {
        Seq::empty()
    } else if s.last() == '\n' || s.last() == '\r' {
        without_line_breaks(s.drop_last())
    } else {
        without_line_breaks(s.drop_last()).push(s.last())
    }
}

/// Remove every line break character.
fn strip_line_breaks(v: &Vec<char>) -> (r: Vec<char>)
    ensures
        r@ == without_line_breaks(v@),
{
    let n = v.len();
    let mut out: Vec<char> = Vec::new();
    let mut i: usize = 0;
    while i < n
        invariant
            i <= n,
            n == v@.len(),
            out@ == without_line_breaks(v@.subrange(0, i as int)),
        decreases n - i,
    {
        let c = v[i];
        proof {
            assert(v@.subrange(0, i + 1).drop_last() =~= v@.subrange(0, i as int));
            assert(v@.subrange(0, i + 1).last() == c);
        }
        if !(c == '\n' || c == '\r') {
            out.push(c);
        }
        i = i + 1;
    }
    proof {
        assert(v@.subrange(0, n as int) =~= v@);
    }
    out
}

/// The state machine of the fallback pass from position `i` on: it tracks
/// brace depth, string-literal state and escapes, and emits every top-level
/// `{...}` span.  `start` is the opening position of the pending span, -1
/// when none is open.
pub open spec fn scan_spans(
    s: Seq<char>,
    i: int,
    depth: int,
    in_string: bool,
    escape: bool,
    start: int,
) -> Seq<Seq<char>>
    decreases s.len() - i,
{
    if i < 0 || i >= s.len() {
        Seq::empty()
    } else {
        let c = s[i];
        if escape {
            scan_spans(s, i + 1, depth, in_string, false, start)
        } else if in_string {
            if c == '\\' {
                scan_spans(s, i + 1, depth, true, true, start)
            } else if c == '"' {
                scan_spans(s, i + 1, depth, false, false, start)
            } else {
                scan_spans(s, i + 1, depth, true, false, start)
            }
        } else {
            if c == '"' {
                scan_spans(s, i + 1, depth, true, false, start)
            } else if c == '{' {
                if depth == 0 {
                    scan_spans(s, i + 1, depth + 1, false, false, i)
                } else {
                    scan_spans(s, i + 1, depth + 1, false, false, start)
                }
            } else if c == '}' {
                if depth - 1 == 0 && start >= 0 {
                    seq![s.subrange(start, i + 1)] + scan_spans(s, i + 1, 0, false, false, -1)
                } else {
                    scan_spans(s, i + 1, depth - 1, false, false, start)
                }
            } else {
                scan_spans(s, i + 1, depth, in_string, false, start)
            }
        }
    }
}

/// The top-level object spans of a concatenated JSON text.
pub open spec fn top_level_spans(s: Seq<char>) -> Seq<Seq<char>> {
    scan_spans(s, 0, 0, false, false, -1)
}

/// Isolate every top-level `{...}` span of the text.
pub fn scan_top_level_spans(v: &Vec<char>) -> (spans: Vec<Vec<char>>)
    ensures
        spans@.map_values(|p: Vec<char>| p@) == top_level_spans(v@),
{
    let n = v.len();
    let mut spans: Vec<Vec<char>> = Vec::new();
    let mut depth: i128 = 0;
    let mut in_string = false;
    let mut escape = false;
    let mut start: Option<usize> = None;
    let mut i: usize = 0;
    proof {
        assert(Seq::<Seq<char>>::empty() + scan_spans(v@, 0, 0, false, false, -1)
            =~= top_level_spans(v@));
    }
    while i < n
        invariant
            i <= n,
            n == v@.len(),
            -(i as int) <= depth <= i as int,
            match start {
                Some(st) => st < i,
                None => true,
            },
            top_level_spans(v@) == spans@.map_values(|p: Vec<char>| p@) + scan_spans(
                v@,
                i as int,
                depth as int,
                in_string,
                escape,
                match start {
                    Some(st) => st as int,
                    None => -1,
                },
            ),
        decreases n - i,
    {
        let c = v[i];
        let ghost st0: int = match start {
            Some(st) => st as int,
            None => -1,
        };
        if escape {
            escape = false;
        } else if in_string {
            if c == '\\' {
                escape = true;
            } else if c == '"' {
                in_string = false;
            }
        } else {
            if c == '"' {
                in_string = true;
            } else if c == '{' {
                if depth == 0 {
                    start = Some(i);
                }
                depth = depth + 1;
            } else if c == '}' {
                depth = depth - 1;
                if depth == 0 {
                    match start {
                        Some(st) => {
                            let ghost pre = spans@.map_values(|p: Vec<char>| p@);
                            let piece = crate::filenames::copy_range(v, st, i + 1);
                            spans.push(piece);
                            start = None;
                            proof {
                                assert(spans@.map_values(|p: Vec<char>| p@) =~= pre.push(
                                    v@.subrange(st as int, i + 1),
                                ));
                                assert(pre + (seq![v@.subrange(st as int, i + 1)] + scan_spans(
                                    v@,
                                    i + 1,
                                    0,
                                    false,
                                    false,
                                    -1,
                                )) =~= pre.push(v@.subrange(st as int, i + 1)) + scan_spans(
                                    v@,
                                    i + 1,
                                    0,
                                    false,
                                    false,
                                    -1,
                                ));
                            }
                        },
                        None => {
                        },
                    }
                }
            }
        }
        i = i + 1;
    }
    proof {
        assert(scan_spans(
            v@,
            n as int,
            depth as int,
            in_string,
            escape,
            match start {
                Some(st) => st as int,
                None => -1,
            },
        ) =~= Seq::<Seq<char>>::empty());
        assert(spans@.map_values(|p: Vec<char>| p@) + Seq::<Seq<char>>::empty()
            =~= spans@.map_values(|p: Vec<char>| p@));
    }
    spans
}

/// The string under a key of a JSON object, if both exist.
fn get_str(v: &serde_json::Value, key: &str) -> Option<String> {
    match json_get(v, key) {
        Some(x) => json_str(x),
        None => None,
    }
}

/// Whether a parsed document is a bundle.
fn is_bundle(v: &serde_json::Value) -> bool {
    match get_str(v, "resourceType") {
        Some(t) => str_eq(t.as_str(), "Bundle"),
        None => false,
    }
}

/// The packaging identifiers of a product resource.
fn read_identifiers(res: &serde_json::Value) -> Vec<Identifier> {
    let mut out: Vec<Identifier> = Vec::new();
    let ids = match json_get(res, "packaging") {
        Some(p) => match json_get(p, "identifier") {
            Some(x) => json_array(x),
            None => None,
        },
        None => None,
    };
    match ids {
        Some(arr) => {
            let n = arr.len();
            let mut i: usize = 0;
            while i < n
                invariant
                    i <= n,
                    n == arr@.len(),
                decreases n - i,
            {
                let system = match get_str(&arr[i], "system") {
                    Some(s) => s,
                    None => String::from_str(""),
                };
                let value = match get_str(&arr[i], "value") {
                    Some(s) => s,
                    None => String::from_str(""),
                };
                out.push(Identifier { system, value });
                i = i + 1;
            }
        },
        None => {
        },
    }
    out
}

/// The type codings of an authorization resource, code strings only.
fn read_type_codes(res: &serde_json::Value) -> Vec<String> {
    let mut out: Vec<String> = Vec::new();
    let codings = match json_get(res, "type") {
        Some(t) => match json_get(t, "coding") {
            Some(c) => json_array(c),
            None => None,
        },
        None => None,
    };
    match codings {
        Some(arr) => {
            let n = arr.len();
            let mut i: usize = 0;
            while i < n
                invariant
                    i <= n,
                    n == arr@.len(),
                decreases n - i,
            {
                match get_str(&arr[i], "code") {
                    Some(code) => out.push(code),
                    None => {
                    },
                }
                i = i + 1;
            }
        },
        None => {
        },
    }
    out
}

/// The reference of the first subject of an authorization resource.
fn read_subject_ref(res: &serde_json::Value) -> Option<String> {
    match json_get(res, "subject") {
        Some(s) => match json_array(s) {
            Some(arr) => {
                if arr.len() >= 1 {
                    get_str(&arr[0], "reference")
                } else {
                    None
                }
            },
            None => None,
        },
        None => None,
    }
}

/// One price extension read from its named sub-values: the last `type`,
/// `value` and `changeDate` entries win, a missing or unusable amount is 0.
fn read_price_ext(ext: &serde_json::Value) -> (r: PriceExt)
    ensures
        r.amount_millis <= crate::model::MAX_AMOUNT_MILLIS,
{
    let mut type_code = String::from_str("");
    let mut amount_millis: u64 = 0;
    let mut change_date = String::from_str("");
    let subs = match json_get(ext, "extension") {
        Some(x) => json_array(x),
        None => None,
    };
    match subs {
        Some(arr) => {
            let n = arr.len();
            let mut i: usize = 0;
            while i < n
                invariant
                    i <= n,
                    n == arr@.len(),
                    amount_millis <= crate::model::MAX_AMOUNT_MILLIS,
                decreases n - i,
            {
                let sub = &arr[i];
                let sub_url = match get_str(sub, "url") {
                    Some(u) => u,
                    None => String::from_str(""),
                };
                if str_eq(sub_url.as_str(), "type") {
                    let code = match json_get(sub, "valueCodeableConcept") {
                        Some(vcc) => match json_get(vcc, "coding") {
                            Some(c) => match json_array(c) {
                                Some(codings) => {
                                    if codings.len() >= 1 {
                                        get_str(&codings[0], "code")
                                    } else {
                                        None
                                    }
                                },
                                None => None,
                            },
                            None => None,
                        },
                        None => None,
                    };
                    type_code = match code {
                        Some(c) => c,
                        None => String::from_str(""),
                    };
                } else if str_eq(sub_url.as_str(), "value") {
                    let num = match json_get(sub, "valueMoney") {
                        Some(vm) => match json_get(vm, "value") {
                            Some(x) => json_number_string(x),
                            None => None,
                        },
                        None => None,
                    };
                    amount_millis = match num {
                        Some(text) => match parse_money(text.as_str()) {
                            Some(a) => a,
                            None => 0,
                        },
                        None => 0,
                    };
                } else if str_eq(sub_url.as_str(), "changeDate") {
                    change_date = match json_get(sub, "valueDate") {
                        Some(x) => match json_str(x) {
                            Some(s) => s,
                            None => String::from_str(""),
                        },
                        None => String::from_str(""),
                    };
                }
                i = i + 1;
            }
        },
        None => {
        },
    }
    PriceExt { type_code, amount_millis, change_date }
}

/// The price extensions of an authorization: entries whose URL names the
/// product-price extension, in order.
fn read_price_exts(res: &serde_json::Value) -> (r: Vec<PriceExt>)
    ensures
        forall|i: int|
            0 <= i < r@.len() ==> (#[trigger] r@[i]).amount_millis
                <= crate::model::MAX_AMOUNT_MILLIS,
{
    let mut out: Vec<PriceExt> = Vec::new();
    let exts = match json_get(res, "extension") {
        Some(x) => json_array(x),
        None => None,
    };
    match exts {
        Some(arr) => {
            let n = arr.len();
            let mut i: usize = 0;
            while i < n
                invariant
                    i <= n,
                    n == arr@.len(),
                    forall|k: int|
                        0 <= k < out@.len() ==> (#[trigger] out@[k]).amount_millis
                            <= crate::model::MAX_AMOUNT_MILLIS,
                decreases n - i,
            {
                let ext = &arr[i];
                let url = match get_str(ext, "url") {
                    Some(u) => u,
                    None => String::from_str(""),
                };
                if str_contains(url.as_str(), "productPrice") {
                    let pe = read_price_ext(ext);
                    proof {
                        assert(pe.amount_millis <= crate::model::MAX_AMOUNT_MILLIS);
                    }
                    out.push(pe);
                }
                i = i + 1;
            }
        },
        None => {
        },
    }
    out
}

/// Classify and convert one resource value into the model.
fn value_to_resource(res: &serde_json::Value) -> (r: Resource)
    ensures
        resource_amounts_bounded(r@),
{
    let rtype = match get_str(res, "resourceType") {
        Some(t) => t,
        None => String::from_str(""),
    };
    let id = match get_str(res, "id") {
        Some(t) => t,
        None => String::from_str(""),
    };
    if str_eq(rtype.as_str(), "PackagedProductDefinition") {
        let identifiers = read_identifiers(res);
        let description = get_str(res, "description");
        let text_div = match json_get(res, "text") {
            Some(t) => match json_get(t, "div") {
                Some(d) => json_str(d),
                None => None,
            },
            None => None,
        };
        Resource::Product(ProductDef { id, identifiers, description, text_div })
    } else if str_eq(rtype.as_str(), "RegulatedAuthorization") {
        let type_codes = read_type_codes(res);
        let subject_ref = read_subject_ref(res);
        let price_exts = read_price_exts(res);
        Resource::Authorization(AuthDef { id, type_codes, subject_ref, price_exts })
    } else {
        Resource::Other(OtherDef { rtype, id })
    }
}

/// Every amount a resource carries is within the model's price bound.
pub open spec fn resource_amounts_bounded(r: crate::model::ResourceV) -> bool {
    match r {
        crate::model::ResourceV::Authorization(a) => forall|i: int|
            0 <= i < a.price_exts.len() ==> (#[trigger] a.price_exts[i]).amount_millis
                <= crate::model::MAX_AMOUNT_MILLIS,
        _ => true,
    }
}

/// Every amount a bundle carries is within the model's price bound.
pub open spec fn bundle_amounts_bounded(b: crate::model::BundleV) -> bool {
    forall|i: int| 0 <= i < b.entries.len() ==> resource_amounts_bounded(#[trigger] b.entries[i])
}

/// Convert one parsed bundle document into the model: the timestamp is the
/// top-level one, else the nested last-updated field; every entry becomes a
/// resource, an entry without one an anonymous other resource.
fn value_to_bundle(v: &serde_json::Value) -> (b: Bundle)
    ensures
        bundle_amounts_bounded(b@),
{
    let timestamp = match get_str(v, "timestamp") {
        Some(ts) => Some(ts),
        None => match json_get(v, "meta") {
            Some(m) => match json_get(m, "lastUpdated") {
                Some(x) => json_str(x),
                None => None,
            },
            None => None,
        },
    };
    let mut entries: Vec<Resource> = Vec::new();
    match json_get(v, "entry") {
        Some(e) => match json_array(e) {
            Some(arr) => {
                let n = arr.len();
                let mut i: usize = 0;
                while i < n
                    invariant
                        i <= n,
                        n == arr@.len(),
                        forall|k: int|
                            0 <= k < entries@.len() ==> resource_amounts_bounded(
                                (#[trigger] entries@[k])@,
                            ),
                    decreases n - i,
                {
                    let r = match json_get(&arr[i], "resource") {
                        Some(res) => value_to_resource(res),
                        None => Resource::Other(
                            OtherDef {
                                rtype: String::from_str(""),
                                id: String::from_str(""),
                            },
                        ),
                    };
                    entries.push(r);
                    i = i + 1;
                }
            },
            None => {
            },
        },
        None => {
        },
    }
    let b = Bundle { timestamp, entries };
    proof {
        assert forall|i: int|
            0 <= i < b@.entries.len() implies resource_amounts_bounded(
            #[trigger] b@.entries[i],
        ) by {
            assert(b@.entries[i] == entries@[i]@);
        }
    }
    b
}

/// Read a snapshot file's text into bundle documents.  Each non-empty line
/// is tried as one document first; if no line holds a bundle, the fallback
/// pass scans the text as concatenated JSON.  When both passes find nothing
/// the input is unusable and loading fails.
pub fn read_foph_bundles(content: &str) -> (r: Result<Vec<Bundle>, LoadError>)
    ensures
        r matches Ok(bs) ==> bs@.len() >= 1 && forall|i: int|
            0 <= i < bs@.len() ==> bundle_amounts_bounded((#[trigger] bs@[i])@),
        r matches Err(e) ==> e == LoadError::NoBundles,
{
    let v = str_chars(content);
    let pieces = split_chars(&v, '\n');
    let mut bundles: Vec<Bundle> = Vec::new();
    let n = pieces.len();
    let mut i: usize = 0;
    while i < n
        invariant
            i <= n,
            n == pieces@.len(),
            forall|k: int|
                0 <= k < bundles@.len() ==> bundle_amounts_bounded((#[trigger] bundles@[k])@),
        decreases n - i,
    {
        let t = trim_chars(&pieces[i]);
        if t.len() > 0 {
            let line = chars_to_string(&t);
            match parse_json(line.as_str()) {
                Some(val) => {
                    if is_bundle(&val) {
                        let b = value_to_bundle(&val);
                        bundles.push(b);
                    }
                },
                None => {
                },
            }
        }
        i = i + 1;
    }
    if bundles.len() == 0 {
        let stripped = strip_line_breaks(&v);
        let spans = scan_top_level_spans(&stripped);
        let m = spans.len();
        let mut j: usize = 0;
        while j < m
            invariant
                j <= m,
                m == spans@.len(),
                forall|k: int|
                    0 <= k < bundles@.len() ==> bundle_amounts_bounded(
                        (#[trigger] bundles@[k])@,
                    ),
            decreases m - j,
        {
            let text = chars_to_string(&spans[j]);
            match parse_json(text.as_str()) {
                Some(val) => {
                    if is_bundle(&val) {
                        let b = value_to_bundle(&val);
                        bundles.push(b);
                    }
                },
                None => {
                },
            }
            j = j + 1;
        }
    }
    if bundles.len() == 0 {
        Err(LoadError::NoBundles)
    } else {
        Ok(bundles)
    }
}

} // verus!
