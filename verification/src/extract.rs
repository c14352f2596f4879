//! The package extractor: per bundle, a keyed index of resources links each
//! authorization to its product; every product with a qualifying identifier
//! becomes one resolved package record.

use vstd::prelude::*;
use vstd::string::StrSliceExecFns;
use crate::model::{
    Bundle,
    BundleV,
    Resource,
    ResourceV,
    ProductDef,
    ProductDefV,
    Identifier,
    IdentifierV,
    PriceExtV,
    PackageInfo,
    PackageInfoV,
    PackageMap,
    map_insert_spec,
    MAX_AMOUNT_MILLIS,
};
use crate::gtin::{valid_gtin, chars_value, gtin_in_range, parse_gtin};
use crate::dates::{DateTuple, parse_date_spec, parse_date_str};

use crate::prices::{
    effective_price_spec,
    get_effective_price,
    lemma_effective_bounded,
};
use crate::text::{str_chars, chars_to_string, str_eq};
use crate::loader::{bundle_amounts_bounded, resource_amounts_bounded};

verus! {

/// The coding that marks a reimbursement-list authorization.
pub open spec fn sl_code() -> Seq<char> {
    "756000002003"@
}

/// The price-type coding of a retail price.
pub open spec fn retail_code() -> Seq<char> {
    "756002005001"@
}

/// The price-type coding of an ex-factory price.
pub open spec fn exfactory_code() -> Seq<char> {
    "756002005002"@
}

/// The canonical identifier system of package identifiers.
pub open spec fn gtin_system_uri() -> Seq<char> {
    "urn:oid:2.51.1.1"@
}

/// The display name of a product that names itself nowhere.
pub open spec fn placeholder_name() -> Seq<char> {
    "Unknown Product"@
}

pub open spec fn product_type_name() -> Seq<char> {
    "PackagedProductDefinition"@
}

pub open spec fn auth_type_name() -> Seq<char> {
    "RegulatedAuthorization"@
}

/// The index key of a resource: `type/id`, absent when either half is empty.
pub open spec fn resource_key(r: ResourceV) -> Option<Seq<char>> {
    match r {
        ResourceV::Product(p) => if p.id.len() > 0 {
            Some(product_type_name() + seq!['/'] + p.id)
        } else {
            None
        },
        ResourceV::Authorization(a) => if a.id.len() > 0 {
            Some(auth_type_name() + seq!['/'] + a.id)
        } else {
            None
        },
        ResourceV::Other(o) => if o.rtype.len() > 0 && o.id.len() > 0 {
            Some(o.rtype + seq!['/'] + o.id)
        } else {
            None
        },
    }
}

/// Whether entry `i` survives the keyed index: it has a key and no later
/// entry shares it (a duplicate key keeps only its last occurrence).
pub open spec fn surviving(entries: Seq<ResourceV>, i: int) -> bool {
    &&& 0 <= i < entries.len()
    &&& resource_key(entries[i]).is_some()
    &&& forall|j: int|
        i < j < entries.len() ==> resource_key(#[trigger] entries[j]) != resource_key(entries[i])
}

/// The identifier value accepted as this product's package identifier: the
/// first entry under the canonical system whose value is a valid identifier.
pub open spec fn gtin_of_identifiers(ids: Seq<IdentifierV>) -> Option<u64>
    decreases ids.len(),
{
    if ids.len() == 0 {
        None
    } else if ids[0].system == gtin_system_uri() && valid_gtin(ids[0].value) {
        Some(chars_value(ids[0].value) as u64)
    } else {
        gtin_of_identifiers(ids.skip(1))
    }
}

/// The display name of a product: description, else rendered text, else the
/// fixed placeholder.
pub open spec fn product_name(p: ProductDefV) -> Seq<char> {
    match p.description {
        Some(d) => d,
        None => match p.text_div {
            Some(t) => t,
            None => placeholder_name(),
        },
    }
}

/// Whether an authorization concerns the reimbursement list and names the
/// given product key as its subject.
pub open spec fn is_relevant_auth(r: ResourceV, key: Seq<char>) -> bool {
    match r {
        ResourceV::Authorization(a) => {
            &&& exists|i: int| 0 <= i < a.type_codes.len() && #[trigger] a.type_codes[i] == sl_code()
            &&& a.subject_ref == Some(key)
        },
        _ => false,
    }
}

/// Whether some surviving authorization of the bundle puts the product on
/// the reimbursement list.
pub open spec fn has_sl(entries: Seq<ResourceV>, key: Seq<char>) -> bool {
    exists|i: int| surviving(entries, i) && is_relevant_auth(#[trigger] entries[i], key)
}

/// The price extensions a resource carries.
pub open spec fn price_exts_of(r: ResourceV) -> Seq<PriceExtV> {
    match r {
        ResourceV::Authorization(a) => a.price_exts,
        _ => Seq::empty(),
    }
}

/// The sample one extension contributes for the given price type: kept only
/// when the amount is positive and the change date parses.
pub open spec fn ext_sample(e: PriceExtV, code: Seq<char>) -> Option<(DateTuple, u64)> {
    if e.type_code == code && e.amount_millis > 0 && parse_date_spec(e.change_date).is_some() {
        Some((parse_date_spec(e.change_date).unwrap(), e.amount_millis))
    } else {
        None
    }
}

/// Position of the first sample with the date, or -1.
pub open spec fn first_date_index(s: Seq<(DateTuple, u64)>, d: DateTuple) -> int
    decreases s.len(),
{
    if s.len() == 0 {
        -1
    } else if s[0].0 == d {
        0
    } else {
        let r = first_date_index(s.skip(1), d);
        if r == -1 {
            -1
        } else {
            r + 1
        }
    }
}

/// Insertion into a series: a sample with the same date is overwritten in
/// place, so the last declaration in entry order wins.
pub open spec fn series_insert(s: Seq<(DateTuple, u64)>, d: DateTuple, a: u64) -> Seq<
    (DateTuple, u64),
> {
    let i = first_date_index(s, d);
    if i == -1 {
        s.push((d, a))
    } else {
        s.update(i, (d, a))
    }
}

/// The series after folding one authorization's extensions in.
pub open spec fn series_of_exts(
    acc: Seq<(DateTuple, u64)>,
    exts: Seq<PriceExtV>,
    code: Seq<char>,
) -> Seq<(DateTuple, u64)>
    decreases exts.len(),
{
    if exts.len() == 0 {
        acc
    } else {
        let acc2 = match ext_sample(exts[0], code) {
            Some(s) => series_insert(acc, s.0, s.1),
            None => acc,
        };
        series_of_exts(acc2, exts.skip(1), code)
    }
}

/// The series collected from the surviving relevant authorizations, entry
/// order, from position `i` on.
pub open spec fn series_from(
    entries: Seq<ResourceV>,
    i: int,
    key: Seq<char>,
    code: Seq<char>,
    acc: Seq<(DateTuple, u64)>,
) -> Seq<(DateTuple, u64)>
    decreases entries.len() - i,
{
    if i < 0 || i >= entries.len() {
        acc
    } else {
        let acc2 = if surviving(entries, i) && is_relevant_auth(entries[i], key) {
            series_of_exts(acc, price_exts_of(entries[i]), code)
        } else {
            acc
        };
        series_from(entries, i + 1, key, code, acc2)
    }
}

/// The full price series of one product for one price type.
pub open spec fn product_series(
    entries: Seq<ResourceV>,
    key: Seq<char>,
    code: Seq<char>,
) -> Seq<(DateTuple, u64)> {
    series_from(entries, 0, key, code, Seq::empty())
}

/// The resolved record of one product within its bundle.
pub open spec fn product_snapshot(
    entries: Seq<ResourceV>,
    p: ProductDefV,
    key: Seq<char>,
    cur: DateTuple,
) -> PackageInfoV {
    PackageInfoV {
        name: product_name(p),
        retail_price: effective_price_spec(product_series(entries, key, retail_code()), cur),
        exfactory_price: effective_price_spec(
            product_series(entries, key, exfactory_code()),
            cur,
        ),
        has_sl_entry: has_sl(entries, key),
    }
}

/// Whether a resolved record is retained in the snapshot.
pub open spec fn info_retained(info: PackageInfoV) -> bool {
    info.retail_price > 0 || info.exfactory_price > 0 || info.has_sl_entry
}

/// The snapshot after processing the bundle's entries from position `i` on:
/// each surviving product with a qualifying identifier and a retained
/// record is inserted, later products overwriting earlier ones.
pub open spec fn process_entries(
    m: Seq<(u64, PackageInfoV)>,
    entries: Seq<ResourceV>,
    i: int,
    cur: DateTuple,
) -> Seq<(u64, PackageInfoV)>
    decreases entries.len() - i,
{
    if i < 0 || i >= entries.len() {
        m
    } else {
        let m2 = if surviving(entries, i) {
            match entries[i] {
                ResourceV::Product(p) => match gtin_of_identifiers(p.identifiers) {
                    Some(g) => {
                        let key = product_type_name() + seq!['/'] + p.id;
                        let info = product_snapshot(entries, p, key, cur);
                        if info_retained(info) {
                            map_insert_spec(m, g, info)
                        } else {
                            m
                        }
                    },
                    None => m,
                },
                _ => m,
            }
        } else {
            m
        };
        process_entries(m2, entries, i + 1, cur)
    }
}

pub open spec fn process_bundle_spec(
    m: Seq<(u64, PackageInfoV)>,
    b: BundleV,
    cur: DateTuple,
) -> Seq<(u64, PackageInfoV)> {
    process_entries(m, b.entries, 0, cur)
}

/// The snapshot of a whole bundle sequence, bundles processed in order.
pub open spec fn process_all(
    m: Seq<(u64, PackageInfoV)>,
    bs: Seq<BundleV>,
    cur: DateTuple,
) -> Seq<(u64, PackageInfoV)>
    decreases bs.len(),
{
    if bs.len() == 0 {
        m
    } else {
        process_all(process_bundle_spec(m, bs[0], cur), bs.skip(1), cur)
    }
}

/// What `process_bundles` computes over the whole input.
pub open spec fn process_bundles_spec(bs: Seq<BundleV>, cur: DateTuple) -> Seq<
    (u64, PackageInfoV),
> {
    process_all(Seq::empty(), bs, cur)
}

/// Build `type/id` as one string.
fn concat_key(t: &str, id: &String) -> (k: String)
    ensures
        k@ == t@ + seq!['/'] + id@,
{
    let mut out = str_chars(t);
    out.push('/');
    let idc = str_chars(id.as_str());
    let n = idc.len();
    let mut i: usize = 0;
    while i < n
        invariant
            i <= n,
            n == idc@.len(),
            idc@ == id@,
            out@ == t@ + seq!['/'] + id@.subrange(0, i as int),
        decreases n - i,
    {
        out.push(idc[i]);
        proof {
            assert(out@ =~= t@ + seq!['/'] + id@.subrange(0, i + 1));
        }
        i = i + 1;
    }
    proof {
        assert(out@ =~= t@ + seq!['/'] + id@);
    }
    chars_to_string(&out)
}

/// The index key of a resource.
fn resource_key_exec(r: &Resource) -> (k: Option<String>)
    ensures
        k matches Some(s) ==> resource_key(r@) == Some(s@),
        k.is_none() ==> resource_key(r@).is_none(),
{
    match r {
        Resource::Product(p) => {
            if p.id.as_str().unicode_len() == 0 {
                None
            } else {
                Some(concat_key("PackagedProductDefinition", &p.id))
            }
        },
        Resource::Authorization(a) => {
            if a.id.as_str().unicode_len() == 0 {
                None
            } else {
                Some(concat_key("RegulatedAuthorization", &a.id))
            }
        },
        Resource::Other(o) => {
            if o.rtype.as_str().unicode_len() == 0 || o.id.as_str().unicode_len() == 0 {
                None
            } else {
                let mut out = str_chars(o.rtype.as_str());
                out.push('/');
                let idc = str_chars(o.id.as_str());
                let n = idc.len();
                let mut i: usize = 0;
                while i < n
                    invariant
                        i <= n,
                        n == idc@.len(),
                        idc@ == o.id@,
                        out@ == o.rtype@ + seq!['/'] + o.id@.subrange(0, i as int),
                    decreases n - i,
                {
                    out.push(idc[i]);
                    proof {
                        assert(out@ =~= o.rtype@ + seq!['/'] + o.id@.subrange(0, i + 1));
                    }
                    i = i + 1;
                }
                proof {
                    assert(out@ =~= o.rtype@ + seq!['/'] + o.id@);
                }
                Some(chars_to_string(&out))
            }
        },
    }
}

/// For each entry, whether it survives the keyed index.
fn survivors(entries: &Vec<Resource>) -> (surv: Vec<bool>)
    ensures
        surv@.len() == entries@.len(),
        forall|i: int|
            0 <= i < entries@.len() ==> surv@[i] == surviving(entries.deep_view(), i),
{
    let ghost ev = entries.deep_view();
    proof {
        assert(ev.len() == entries@.len());
        assert(forall|i: int| 0 <= i < ev.len() ==> #[trigger] ev[i] == entries@[i]@);
    }
    let n = entries.len();
    let mut surv: Vec<bool> = Vec::new();
    let mut i: usize = 0;
    while i < n
        invariant
            i <= n,
            n == entries@.len(),
            ev == entries.deep_view(),
            ev.len() == n,
            forall|k: int| 0 <= k < ev.len() ==> #[trigger] ev[k] == entries@[k]@,
            surv@.len() == i,
            forall|k: int| 0 <= k < i ==> surv@[k] == surviving(ev, k),
        decreases n - i,
    {
        match resource_key_exec(&entries[i]) {
            None => {
                proof {
                    assert(resource_key(ev[i as int]).is_none());
                    assert(!surviving(ev, i as int));
                }
                surv.push(false);
            },
            Some(ki) => {
                let mut dup = false;
                let mut j: usize = i + 1;
                while j < n && !dup
                    invariant
                        i < j <= n,
                        n == entries@.len(),
                        ev == entries.deep_view(),
                        ev.len() == n,
                        forall|k: int| 0 <= k < ev.len() ==> #[trigger] ev[k] == entries@[k]@,
                        resource_key(ev[i as int]) == Some(ki@),
                        !dup ==> forall|k: int|
                            i < k < j ==> resource_key(#[trigger] ev[k]) != resource_key(
                                ev[i as int],
                            ),
                        dup ==> exists|k: int|
                            i < k < n && resource_key(#[trigger] ev[k]) == resource_key(
                                ev[i as int],
                            ),
                    decreases n - j + (if dup {
                        0int
                    } else {
                        1int
                    }),
                {
                    match resource_key_exec(&entries[j]) {
                        Some(kj) => {
                            if str_eq(ki.as_str(), kj.as_str()) {
                                proof {
                                    assert(resource_key(ev[j as int]) == Some(kj@));
                                    assert(resource_key(ev[j as int]) == resource_key(
                                        ev[i as int],
                                    ));
                                }
                                dup = true;
                            } else {
                                proof {
                                    assert(resource_key(ev[j as int]) == Some(kj@));
                                    assert(resource_key(ev[j as int]) != resource_key(
                                        ev[i as int],
                                    ));
                                }
                                j = j + 1;
                            }
                        },
                        None => {
                            proof {
                                assert(resource_key(ev[j as int]).is_none());
                            }
                            j = j + 1;
                        },
                    }
                }
                proof {
                    if dup {
                        assert(!surviving(ev, i as int));
                    } else {
                        assert(surviving(ev, i as int));
                    }
                }
                surv.push(!dup);
            },
        }
        i = i + 1;
    }
    surv
}

/// Whether the resource is a reimbursement-list authorization whose subject
/// is the given key.
fn is_relevant_auth_exec(r: &Resource, key: &String) -> (b: bool)
    ensures
        b == is_relevant_auth(r@, key@),
{
    match r {
        Resource::Authorization(a) => {
            let ghost tv = a.type_codes.deep_view();
            proof {
                assert(forall|k: int|
                    0 <= k < tv.len() ==> #[trigger] tv[k] == a.type_codes@[k]@);
            }
            let n = a.type_codes.len();
            let mut is_sl = false;
            let mut i: usize = 0;
            while i < n && !is_sl
                invariant
                    i <= n,
                    n == a.type_codes@.len(),
                    tv == a.type_codes.deep_view(),
                    tv.len() == n,
                    forall|k: int| 0 <= k < tv.len() ==> #[trigger] tv[k] == a.type_codes@[k]@,
                    !is_sl ==> forall|k: int| 0 <= k < i ==> #[trigger] tv[k] != sl_code(),
                    is_sl ==> exists|k: int| 0 <= k < n && #[trigger] tv[k] == sl_code(),
                decreases n - i + (if is_sl {
                    0int
                } else {
                    1int
                }),
            {
                if str_eq(a.type_codes[i].as_str(), "756000002003") {
                    proof {
                        assert(tv[i as int] == sl_code());
                    }
                    is_sl = true;
                } else {
                    i = i + 1;
                }
            }
            if !is_sl {
                proof {
                    assert(!(exists|k: int|
                        0 <= k < a@.type_codes.len() && #[trigger] a@.type_codes[k]
                            == sl_code())) by {
                        assert(a@.type_codes == tv);
                    }
                }
                return false;
            }
            match &a.subject_ref {
                Some(s) => {
                    let eq = str_eq(s.as_str(), key.as_str());
                    proof {
                        assert(a@.subject_ref == Some(s@));
                        assert(a@.type_codes == tv);
                    }
                    eq
                },
                None => {
                    proof {
                        assert(a@.subject_ref is None);
                    }
                    false
                },
            }
        },
        Resource::Product(_) => false,
        Resource::Other(_) => false,
    }
}

/// Whether some surviving authorization puts the product on the list.
fn has_sl_exec(entries: &Vec<Resource>, surv: &Vec<bool>, key: &String) -> (b: bool)
    requires
        surv@.len() == entries@.len(),
        forall|i: int|
            0 <= i < entries@.len() ==> surv@[i] == surviving(entries.deep_view(), i),
    ensures
        b == has_sl(entries.deep_view(), key@),
{
    let ghost ev = entries.deep_view();
    proof {
        assert(forall|k: int| 0 <= k < ev.len() ==> #[trigger] ev[k] == entries@[k]@);
    }
    let n = entries.len();
    let mut i: usize = 0;
    while i < n
        invariant
            i <= n,
            n == entries@.len(),
            ev == entries.deep_view(),
            ev.len() == n,
            forall|k: int| 0 <= k < ev.len() ==> #[trigger] ev[k] == entries@[k]@,
            surv@.len() == n,
            forall|k: int| 0 <= k < n ==> surv@[k] == surviving(ev, k),
            forall|k: int|
                0 <= k < i ==> !(surviving(ev, k) && is_relevant_auth(#[trigger] ev[k], key@)),
        decreases n - i,
    {
        if surv[i] {
            let rel = is_relevant_auth_exec(&entries[i], key);
            if rel {
                proof {
                    assert(surviving(ev, i as int) && is_relevant_auth(ev[i as int], key@));
                }
                return true;
            }
        }
        i = i + 1;
    }
    proof {
        if has_sl(ev, key@) {
            let w = choose|k: int| surviving(ev, k) && is_relevant_auth(#[trigger] ev[k], key@);
            assert(!(surviving(ev, w) && is_relevant_auth(ev[w], key@)));
        }
    }
    false
}

/// The qualifying package identifier of a product, numeric.
fn extract_gtin_exec(ids: &Vec<Identifier>) -> (g: Option<u64>)
    ensures
        g == gtin_of_identifiers(ids.deep_view()),
        g matches Some(x) ==> gtin_in_range(x),
{
    let ghost dv = ids.deep_view();
    proof {
        assert(forall|k: int| 0 <= k < dv.len() ==> #[trigger] dv[k] == ids@[k]@);
        assert(dv.skip(0) =~= dv);
    }
    let n = ids.len();
    let mut i: usize = 0;
    while i < n
        invariant
            i <= n,
            n == ids@.len(),
            dv == ids.deep_view(),
            dv.len() == n,
            forall|k: int| 0 <= k < dv.len() ==> #[trigger] dv[k] == ids@[k]@,
            gtin_of_identifiers(dv) == gtin_of_identifiers(dv.skip(i as int)),
        decreases n - i,
    {
        let ghost tail = dv.skip(i as int);
        proof {
            assert(tail[0] == dv[i as int]);
            assert(tail.skip(1) =~= dv.skip(i + 1));
        }
        let id = &ids[i];
        let sys_ok = str_eq(id.system.as_str(), "urn:oid:2.51.1.1");
        if sys_ok {
            match parse_gtin(id.value.as_str()) {
                Some(g) => {
                    proof {
                        assert(valid_gtin(dv[i as int].value));
                        assert(gtin_of_identifiers(tail) == Some(
                            chars_value(dv[i as int].value) as u64,
                        ));
                    }
                    return Some(g);
                },
                None => {
                    proof {
                        assert(!valid_gtin(dv[i as int].value));
                    }
                },
            }
        }
        i = i + 1;
    }
    proof {
        assert(dv.skip(n as int) =~= Seq::<IdentifierV>::empty());
    }
    None
}

/// The display name of a product.
fn product_name_exec(p: &ProductDef) -> (r: String)
    ensures
        r@ == product_name(p@),
{
    match &p.description {
        Some(d) => d.clone(),
        None => match &p.text_div {
            Some(t) => t.clone(),
            None => {
                let mut out: Vec<char> = Vec::new();
                let lit = str_chars("Unknown Product");
                proof {
                    assert(lit@ == placeholder_name());
                }
                chars_to_string(&lit)
            },
        },
    }
}

proof fn lemma_first_date_index(s: Seq<(DateTuple, u64)>, d: DateTuple)
    ensures
        first_date_index(s, d) == -1 ==> forall|i: int|
            0 <= i < s.len() ==> (#[trigger] s[i]).0 != d,
        first_date_index(s, d) != -1 ==> {
            let r = first_date_index(s, d);
            &&& 0 <= r < s.len()
            &&& s[r].0 == d
            &&& forall|i: int| 0 <= i < r ==> (#[trigger] s[i]).0 != d
        },
    decreases s.len(),
{
    if s.len() > 0 && s[0].0 != d {
        lemma_first_date_index(s.skip(1), d);
        let r1 = first_date_index(s.skip(1), d);
        if r1 == -1 {
            assert forall|i: int| 0 <= i < s.len() implies (#[trigger] s[i]).0 != d by {
                if i >= 1 {
                    assert(s.skip(1)[i - 1] == s[i]);
                    assert(s.skip(1)[i - 1].0 != d);
                }
            }
        } else {
            assert(s.skip(1)[r1] == s[r1 + 1]);
            assert forall|i: int| 0 <= i < r1 + 1 implies (#[trigger] s[i]).0 != d by {
                if i >= 1 {
                    assert(s.skip(1)[i - 1] == s[i]);
                    assert(s.skip(1)[i - 1].0 != d);
                }
            }
        }
    }
}

/// Insert one sample, overwriting a sample with the same date in place.
fn series_insert_exec(s: &mut Vec<(DateTuple, u64)>, d: DateTuple, a: u64)
    ensures
        final(s)@ == series_insert(old(s)@, d, a),
{
    proof {
        lemma_first_date_index(s@, d);
    }
    let ghost s0 = s@;
    let n = s.len();
    let mut i: usize = 0;
    while i < n
        invariant
            i <= n,
            n == s@.len(),
            s@ == s0,
            s0 == old(s)@,
            forall|k: int| 0 <= k < i ==> (#[trigger] s0[k]).0 != d,
        decreases n - i,
    {
        let e = s[i];
        if e.0.0 == d.0 && e.0.1 == d.1 && e.0.2 == d.2 {
            proof {
                assert(s0[i as int].0 == d);
                lemma_first_date_index(s0, d);
                let r = first_date_index(s0, d);
                assert(r != -1) by {
                    if r == -1 {
                        assert(s0[i as int].0 != d);
                    }
                }
                assert(r >= i) by {
                    if r < i {
                        assert(s0[r].0 != d);
                    }
                }
                assert(r <= i) by {
                    if r > i {
                        assert(s0[i as int].0 != d);
                    }
                }
            }
            s.remove(i);
            s.insert(i, (d, a));
            proof {
                assert(s@ =~= s0.update(i as int, (d, a)));
            }
            return ;
        }
        i = i + 1;
    }
    proof {
        lemma_first_date_index(s0, d);
        let r = first_date_index(s0, d);
        assert(r == -1) by {
            if r != -1 {
                assert(s0[r].0 != d);
            }
        }
    }
    s.push((d, a));
}

/// The price series of one product for one price type, collected from the
/// surviving relevant authorizations in entry order.
fn collect_series(
    entries: &Vec<Resource>,
    surv: &Vec<bool>,
    key: &String,
    code: &str,
) -> (r: Vec<(DateTuple, u64)>)
    requires
        surv@.len() == entries@.len(),
        forall|i: int|
            0 <= i < entries@.len() ==> surv@[i] == surviving(entries.deep_view(), i),
    ensures
        r@ == product_series(entries.deep_view(), key@, code@),
{
    let ghost ev = entries.deep_view();
    proof {
        assert(forall|k: int| 0 <= k < ev.len() ==> #[trigger] ev[k] == entries@[k]@);
    }
    let n = entries.len();
    let mut acc: Vec<(DateTuple, u64)> = Vec::new();
    let mut i: usize = 0;
    proof {
        assert(product_series(ev, key@, code@) == series_from(ev, 0, key@, code@, acc@));
    }
    while i < n
        invariant
            i <= n,
            n == entries@.len(),
            ev == entries.deep_view(),
            ev.len() == n,
            forall|k: int| 0 <= k < ev.len() ==> #[trigger] ev[k] == entries@[k]@,
            surv@.len() == n,
            forall|k: int| 0 <= k < n ==> surv@[k] == surviving(ev, k),
            product_series(ev, key@, code@) == series_from(ev, i as int, key@, code@, acc@),
        decreases n - i,
    {
        let ghost acc_in = acc@;
        if surv[i] {
            let rel = is_relevant_auth_exec(&entries[i], key);
            if rel {
                match &entries[i] {
                    Resource::Authorization(auth) => {
                        let ghost xs = auth.price_exts.deep_view();
                        proof {
                            assert(forall|k: int|
                                0 <= k < xs.len() ==> #[trigger] xs[k] == auth.price_exts@[k]@);
                            assert(price_exts_of(ev[i as int]) == xs);
                            assert(xs.skip(0) =~= xs);
                        }
                        let m = auth.price_exts.len();
                        let mut j: usize = 0;
                        while j < m
                            invariant
                                j <= m,
                                m == auth.price_exts@.len(),
                                xs == auth.price_exts.deep_view(),
                                xs.len() == m,
                                forall|k: int|
                                    0 <= k < xs.len() ==> #[trigger] xs[k] == auth.price_exts@[
                                        k
                                    ]@,
                                series_of_exts(acc_in, xs, code@) == series_of_exts(
                                    acc@,
                                    xs.skip(j as int),
                                    code@,
                                ),
                            decreases m - j,
                        {
                            let ghost tail = xs.skip(j as int);
                            proof {
                                assert(tail[0] == xs[j as int]);
                                assert(tail.skip(1) =~= xs.skip(j + 1));
                            }
                            let e = &auth.price_exts[j];
                            let type_ok = str_eq(e.type_code.as_str(), code);
                            if type_ok && e.amount_millis > 0 {
                                match parse_date_str(e.change_date.as_str()) {
                                    Some(dt) => {
                                        proof {
                                            assert(ext_sample(xs[j as int], code@) == Some(
                                                (dt, e.amount_millis),
                                            ));
                                        }
                                        series_insert_exec(&mut acc, dt, e.amount_millis);
                                    },
                                    None => {
                                        proof {
                                            assert(ext_sample(xs[j as int], code@).is_none());
                                        }
                                    },
                                }
                            } else {
                                proof {
                                    assert(ext_sample(xs[j as int], code@).is_none());
                                }
                            }
                            j = j + 1;
                        }
                        proof {
                            assert(xs.skip(m as int) =~= Seq::<PriceExtV>::empty());
                            assert(series_of_exts(acc_in, xs, code@) == acc@);
                        }
                    },
                    Resource::Product(_) => {
                        proof {
                            assert(false);
                        }
                    },
                    Resource::Other(_) => {
                        proof {
                            assert(false);
                        }
                    },
                }
            }
        }
        proof {
            let ghost tail_i = ev.skip(i as int);
            assert(series_from(ev, i as int, key@, code@, acc_in) == series_from(
                ev,
                i + 1,
                key@,
                code@,
                acc@,
            ));
        }
        i = i + 1;
    }
    acc
}

proof fn lemma_series_insert_bound(s: Seq<(DateTuple, u64)>, d: DateTuple, a: u64)
    requires
        forall|k: int| 0 <= k < s.len() ==> (#[trigger] s[k]).1 <= MAX_AMOUNT_MILLIS,
        a <= MAX_AMOUNT_MILLIS,
    ensures
        forall|k: int|
            0 <= k < series_insert(s, d, a).len() ==> (#[trigger] series_insert(s, d, a)[k]).1
                <= MAX_AMOUNT_MILLIS,
{
    lemma_first_date_index(s, d);
    let r = series_insert(s, d, a);
    assert forall|k: int| 0 <= k < r.len() implies (#[trigger] r[k]).1 <= MAX_AMOUNT_MILLIS by {
        let i = first_date_index(s, d);
        if i == -1 {
            if k < s.len() {
                assert(r[k] == s[k]);
            } else {
                assert(r[k] == (d, a));
            }
        } else {
            if k == i {
                assert(r[k] == (d, a));
            } else {
                assert(r[k] == s[k]);
            }
        }
    }
}

proof fn lemma_series_of_exts_bound(
    acc: Seq<(DateTuple, u64)>,
    exts: Seq<PriceExtV>,
    code: Seq<char>,
)
    requires
        forall|k: int| 0 <= k < acc.len() ==> (#[trigger] acc[k]).1 <= MAX_AMOUNT_MILLIS,
        forall|k: int|
            0 <= k < exts.len() ==> (#[trigger] exts[k]).amount_millis <= MAX_AMOUNT_MILLIS,
    ensures
        forall|k: int|
            0 <= k < series_of_exts(acc, exts, code).len() ==> (#[trigger] series_of_exts(
                acc,
                exts,
                code,
            )[k]).1 <= MAX_AMOUNT_MILLIS,
    decreases exts.len(),
{
    if exts.len() > 0 {
        assert(forall|k: int|
            0 <= k < exts.skip(1).len() ==> #[trigger] exts.skip(1)[k] == exts[k + 1]);
        match ext_sample(exts[0], code) {
            Some(sm) => {
                assert(sm.1 == exts[0].amount_millis);
                lemma_series_insert_bound(acc, sm.0, sm.1);
                lemma_series_of_exts_bound(series_insert(acc, sm.0, sm.1), exts.skip(1), code);
                assert(series_of_exts(acc, exts, code) == series_of_exts(
                    series_insert(acc, sm.0, sm.1),
                    exts.skip(1),
                    code,
                ));
            },
            None => {
                lemma_series_of_exts_bound(acc, exts.skip(1), code);
                assert(series_of_exts(acc, exts, code) == series_of_exts(
                    acc,
                    exts.skip(1),
                    code,
                ));
            },
        }
    }
}

proof fn lemma_series_from_bound(
    entries: Seq<ResourceV>,
    i: int,
    key: Seq<char>,
    code: Seq<char>,
    acc: Seq<(DateTuple, u64)>,
)
    requires
        forall|k: int| 0 <= k < acc.len() ==> (#[trigger] acc[k]).1 <= MAX_AMOUNT_MILLIS,
        forall|k: int|
            0 <= k < entries.len() ==> resource_amounts_bounded(#[trigger] entries[k]),
    ensures
        forall|k: int|
            0 <= k < series_from(entries, i, key, code, acc).len() ==> (#[trigger] series_from(
                entries,
                i,
                key,
                code,
                acc,
            )[k]).1 <= MAX_AMOUNT_MILLIS,
    decreases entries.len() - i,
{
    if 0 <= i < entries.len() {
        if surviving(entries, i) && is_relevant_auth(entries[i], key) {
            assert(resource_amounts_bounded(entries[i]));
            match entries[i] {
                ResourceV::Authorization(a) => {
                    lemma_series_of_exts_bound(acc, a.price_exts, code);
                },
                _ => {
                },
            }
            lemma_series_from_bound(
                entries,
                i + 1,
                key,
                code,
                series_of_exts(acc, price_exts_of(entries[i]), code),
            );
            assert(series_from(entries, i, key, code, acc) == series_from(
                entries,
                i + 1,
                key,
                code,
                series_of_exts(acc, price_exts_of(entries[i]), code),
            ));
        } else {
            lemma_series_from_bound(entries, i + 1, key, code, acc);
            assert(series_from(entries, i, key, code, acc) == series_from(
                entries,
                i + 1,
                key,
                code,
                acc,
            ));
        }
    }
}

/// Process one bundle's products into the snapshot.
fn process_one_bundle(m: &mut PackageMap, b: &Bundle, cur: &DateTuple)
    requires
        old(m).wf(),
        bundle_amounts_bounded(b@),
    ensures
        final(m)@ == process_bundle_spec(old(m)@, b@, *cur),
        final(m).wf(),
{
    let ghost m0 = old(m)@;
    let ghost ev = b.entries.deep_view();
    proof {
        assert(b@.entries == ev);
        assert(forall|k: int| 0 <= k < ev.len() ==> #[trigger] ev[k] == b.entries@[k]@);
    }
    let surv = survivors(&b.entries);
    let n = b.entries.len();
    let mut i: usize = 0;
    proof {
        assert(process_bundle_spec(m0, b@, *cur) == process_entries(m0, ev, 0, *cur));
    }
    while i < n
        invariant
            i <= n,
            n == b.entries@.len(),
            ev == b.entries.deep_view(),
            ev.len() == n,
            forall|k: int| 0 <= k < ev.len() ==> #[trigger] ev[k] == b.entries@[k]@,
            surv@.len() == n,
            forall|k: int| 0 <= k < n ==> surv@[k] == surviving(ev, k),
            m.wf(),
            bundle_amounts_bounded(b@),
            b@.entries == ev,
            process_bundle_spec(m0, b@, *cur) == process_entries(m@, ev, i as int, *cur),
        decreases n - i,
    {
        let ghost m_in = m@;
        if surv[i] {
            match &b.entries[i] {
                Resource::Product(p) => {
                    proof {
                        assert(ev[i as int] == ResourceV::Product(p@));
                    }
                    match extract_gtin_exec(&p.identifiers) {
                        Some(g) => {
                            proof {
                                assert(p@.identifiers == p.identifiers.deep_view());
                            }
                            let key = concat_key("PackagedProductDefinition", &p.id);
                            proof {
                                assert(key@ == product_type_name() + seq!['/'] + p@.id);
                            }
                            let retail_series = collect_series(
                                &b.entries,
                                &surv,
                                &key,
                                "756002005001",
                            );
                            let exf_series = collect_series(
                                &b.entries,
                                &surv,
                                &key,
                                "756002005002",
                            );
                            let retail = get_effective_price(&retail_series, cur);
                            let exf = get_effective_price(&exf_series, cur);
                            let sl = has_sl_exec(&b.entries, &surv, &key);
                            proof {
                                assert(forall|k: int|
                                    0 <= k < ev.len() ==> resource_amounts_bounded(
                                        #[trigger] ev[k],
                                    )) by {
                                    assert(forall|k: int|
                                        0 <= k < b@.entries.len() ==> resource_amounts_bounded(
                                            #[trigger] b@.entries[k],
                                        ));
                                }
                                lemma_series_from_bound(
                                    ev,
                                    0,
                                    key@,
                                    retail_code(),
                                    Seq::empty(),
                                );
                                lemma_series_from_bound(
                                    ev,
                                    0,
                                    key@,
                                    exfactory_code(),
                                    Seq::empty(),
                                );
                                lemma_effective_bounded(
                                    product_series(ev, key@, retail_code()),
                                    *cur,
                                    None,
                                    0,
                                    MAX_AMOUNT_MILLIS,
                                );
                                lemma_effective_bounded(
                                    product_series(ev, key@, exfactory_code()),
                                    *cur,
                                    None,
                                    0,
                                    MAX_AMOUNT_MILLIS,
                                );
                            }
                            if retail > 0 || exf > 0 || sl {
                                let name = product_name_exec(p);
                                let info = PackageInfo {
                                    name,
                                    retail_price: retail,
                                    exfactory_price: exf,
                                    has_sl_entry: sl,
                                };
                                proof {
                                    assert(info@ == product_snapshot(ev, p@, key@, *cur));
                                    assert(info_retained(info@));
                                }
                                m.insert(g, info);
                            } else {
                                proof {
                                    assert(!info_retained(
                                        product_snapshot(ev, p@, key@, *cur),
                                    ));
                                }
                            }
                        },
                        None => {
                        },
                    }
                },
                Resource::Authorization(_) => {
                },
                Resource::Other(_) => {
                },
            }
        }
        proof {
            assert(process_entries(m_in, ev, i as int, *cur) == process_entries(
                m@,
                ev,
                i + 1,
                *cur,
            ));
        }
        i = i + 1;
    }
    proof {
        assert(process_entries(m@, ev, n as int, *cur) == m@);
    }
}

/// Build the resolved snapshot of a bundle sequence as of the given date.
/// Each surviving product with a qualifying identifier and either a price or
/// a reimbursement-list entry becomes one record; a later product with the
/// same identifier overwrites an earlier one.
pub fn process_bundles(bundles: &Vec<Bundle>, current_dt: &DateTuple) -> (m: PackageMap)
    requires
        forall|i: int|
            0 <= i < bundles@.len() ==> bundle_amounts_bounded((#[trigger] bundles@[i])@),
    ensures
        m@ == process_bundles_spec(bundles.deep_view(), *current_dt),
        m.wf(),
{
    let ghost bv = bundles.deep_view();
    proof {
        assert(forall|k: int| 0 <= k < bv.len() ==> #[trigger] bv[k] == bundles@[k]@);
        assert(bv.skip(0) =~= bv);
    }
    let mut m = PackageMap::new();
    let n = bundles.len();
    let mut i: usize = 0;
    proof {
        assert(m@ == Seq::<(u64, PackageInfoV)>::empty());
    }
    while i < n
        invariant
            i <= n,
            n == bundles@.len(),
            bv == bundles.deep_view(),
            bv.len() == n,
            forall|k: int| 0 <= k < bv.len() ==> #[trigger] bv[k] == bundles@[k]@,
            forall|k: int|
                0 <= k < bundles@.len() ==> bundle_amounts_bounded((#[trigger] bundles@[k])@),
            m.wf(),
            process_bundles_spec(bv, *current_dt) == process_all(m@, bv.skip(i as int), *current_dt),
        decreases n - i,
    {
        let ghost m_in = m@;
        let ghost tail = bv.skip(i as int);
        proof {
            assert(tail[0] == bv[i as int]);
            assert(tail.skip(1) =~= bv.skip(i + 1));
            assert(bundles@[i as int]@ == bv[i as int]);
        }
        process_one_bundle(&mut m, &bundles[i], current_dt);
        proof {
            assert(process_all(m_in, tail, *current_dt) == process_all(
                process_bundle_spec(m_in, bv[i as int], *current_dt),
                tail.skip(1),
                *current_dt,
            ));
        }
        i = i + 1;
    }
    proof {
        assert(bv.skip(n as int) =~= Seq::<BundleV>::empty());
    }
    m
}

/// Every identifier of a well-formed snapshot renders to a valid 13-digit
/// string with the fixed prefix.
pub proof fn lemma_snapshot_gtins_valid(s: Seq<(u64, PackageInfoV)>)
    requires
        forall|i: int| 0 <= i < s.len() ==> gtin_in_range((#[trigger] s[i]).0),
    ensures
        forall|i: int|
            0 <= i < s.len() ==> valid_gtin(crate::gtin::gtin_digits((#[trigger] s[i]).0)),
{
    assert forall|i: int|
        0 <= i < s.len() implies valid_gtin(crate::gtin::gtin_digits((#[trigger] s[i]).0)) by {
        crate::gtin::lemma_gtin_digits_valid(s[i].0);
    }
}

proof fn lemma_map_insert_retained(s: Seq<(u64, PackageInfoV)>, g: u64, info: PackageInfoV)
    requires
        forall|k: int| 0 <= k < s.len() ==> info_retained((#[trigger] s[k]).1),
        info_retained(info),
    ensures
        forall|k: int|
            0 <= k < map_insert_spec(s, g, info).len() ==> info_retained(
                (#[trigger] map_insert_spec(s, g, info)[k]).1,
            ),
{
    crate::model::lemma_first_key_index(s, g);
    let r = map_insert_spec(s, g, info);
    assert forall|k: int| 0 <= k < r.len() implies info_retained((#[trigger] r[k]).1) by {
        let i = crate::model::first_key_index(s, g);
        if i == -1 {
            if k < s.len() {
                assert(r[k] == s[k]);
            } else {
                assert(r[k] == (g, info));
            }
        } else {
            if k == i {
                assert(r[k] == (g, info));
            } else {
                assert(r[k] == s[k]);
            }
        }
    }
}

proof fn lemma_process_entries_retained(
    m: Seq<(u64, PackageInfoV)>,
    entries: Seq<ResourceV>,
    i: int,
    cur: DateTuple,
)
    requires
        forall|k: int| 0 <= k < m.len() ==> info_retained((#[trigger] m[k]).1),
    ensures
        forall|k: int|
            0 <= k < process_entries(m, entries, i, cur).len() ==> info_retained(
                (#[trigger] process_entries(m, entries, i, cur)[k]).1,
            ),
    decreases entries.len() - i,
{
    if 0 <= i < entries.len() {
        if surviving(entries, i) {
            match entries[i] {
                ResourceV::Product(p) => {
                    match gtin_of_identifiers(p.identifiers) {
                        Some(g) => {
                            let key = product_type_name() + seq!['/'] + p.id;
                            let info = product_snapshot(entries, p, key, cur);
                            if info_retained(info) {
                                lemma_map_insert_retained(m, g, info);
                                lemma_process_entries_retained(
                                    map_insert_spec(m, g, info),
                                    entries,
                                    i + 1,
                                    cur,
                                );
                                assert(process_entries(m, entries, i, cur) == process_entries(
                                    map_insert_spec(m, g, info),
                                    entries,
                                    i + 1,
                                    cur,
                                ));
                            } else {
                                lemma_process_entries_retained(m, entries, i + 1, cur);
                                assert(process_entries(m, entries, i, cur) == process_entries(
                                    m,
                                    entries,
                                    i + 1,
                                    cur,
                                ));
                            }
                        },
                        None => {
                            lemma_process_entries_retained(m, entries, i + 1, cur);
                            assert(process_entries(m, entries, i, cur) == process_entries(
                                m,
                                entries,
                                i + 1,
                                cur,
                            ));
                        },
                    }
                },
                _ => {
                    lemma_process_entries_retained(m, entries, i + 1, cur);
                    assert(process_entries(m, entries, i, cur) == process_entries(
                        m,
                        entries,
                        i + 1,
                        cur,
                    ));
                },
            }
        } else {
            lemma_process_entries_retained(m, entries, i + 1, cur);
            assert(process_entries(m, entries, i, cur) == process_entries(
                m,
                entries,
                i + 1,
                cur,
            ));
        }
    }
}

proof fn lemma_process_all_retained(
    m: Seq<(u64, PackageInfoV)>,
    bs: Seq<BundleV>,
    cur: DateTuple,
)
    requires
        forall|k: int| 0 <= k < m.len() ==> info_retained((#[trigger] m[k]).1),
    ensures
        forall|k: int|
            0 <= k < process_all(m, bs, cur).len() ==> info_retained(
                (#[trigger] process_all(m, bs, cur)[k]).1,
            ),
    decreases bs.len(),
{
    if bs.len() > 0 {
        lemma_process_entries_retained(m, bs[0].entries, 0, cur);
        lemma_process_all_retained(process_bundle_spec(m, bs[0], cur), bs.skip(1), cur);
        assert(process_all(m, bs, cur) == process_all(
            process_bundle_spec(m, bs[0], cur),
            bs.skip(1),
            cur,
        ));
    }
}

/// A product stands in a snapshot only when it has an effective price or a
/// reimbursement-list entry: everything else is dropped.
pub proof fn lemma_snapshot_retention(bs: Seq<BundleV>, cur: DateTuple)
    ensures
        forall|k: int|
            0 <= k < process_bundles_spec(bs, cur).len() ==> info_retained(
                (#[trigger] process_bundles_spec(bs, cur)[k]).1,
            ),
{
    lemma_process_all_retained(Seq::empty(), bs, cur);
}

} // verus!
