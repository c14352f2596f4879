//! The data model of a snapshot: bundles, the two resource kinds the engine
//! consumes, resolved package records, and the keyed package map.

use vstd::prelude::*;
use crate::gtin::gtin_in_range;

verus! {

/// Ceiling on a price in thousandths of a currency unit; what the money
/// parser can produce, and what keeps price differences inside `i64`.
pub const MAX_AMOUNT_MILLIS: u64 = 1_000_000_000_000_000_000;

/// A packaging identifier entry: a system URI and a value.
pub struct Identifier {
    pub system: String,
    pub value: String,
}

pub ghost struct IdentifierV {
    pub system: Seq<char>,
    pub value: Seq<char>,
}

impl View for Identifier {
    type V = IdentifierV;

    open spec fn view(&self) -> IdentifierV {
        IdentifierV { system: self.system@, value: self.value@ }
    }
}

impl DeepView for Identifier {
    type V = IdentifierV;

    open spec fn deep_view(&self) -> IdentifierV {
        self@
    }
}

/// One price extension of an authorization: a price-type code, an amount in
/// thousandths (0 when missing or unusable), and a change date string.
pub struct PriceExt {
    pub type_code: String,
    pub amount_millis: u64,
    pub change_date: String,
}

pub ghost struct PriceExtV {
    pub type_code: Seq<char>,
    pub amount_millis: u64,
    pub change_date: Seq<char>,
}

impl View for PriceExt {
    type V = PriceExtV;

    open spec fn view(&self) -> PriceExtV {
        PriceExtV {
            type_code: self.type_code@,
            amount_millis: self.amount_millis,
            change_date: self.change_date@,
        }
    }
}

impl DeepView for PriceExt {
    type V = PriceExtV;

    open spec fn deep_view(&self) -> PriceExtV {
        self@
    }
}

/// A product-definition resource: its id, its packaging identifiers and the
/// fields a display name may come from.
pub struct ProductDef {
    pub id: String,
    pub identifiers: Vec<Identifier>,
    pub description: Option<String>,
    pub text_div: Option<String>,
}

pub ghost struct ProductDefV {
    pub id: Seq<char>,
    pub identifiers: Seq<IdentifierV>,
    pub description: Option<Seq<char>>,
    pub text_div: Option<Seq<char>>,
}

impl View for ProductDef {
    type V = ProductDefV;

    open spec fn view(&self) -> ProductDefV {
        ProductDefV {
            id: self.id@,
            identifiers: self.identifiers.deep_view(),
            description: self.description.deep_view(),
            text_div: self.text_div.deep_view(),
        }
    }
}

impl DeepView for ProductDef {
    type V = ProductDefV;

    open spec fn deep_view(&self) -> ProductDefV {
        self@
    }
}

/// An authorization resource: its id, its type codings, the reference of its
/// first subject, and its nested price extensions.
pub struct AuthDef {
    pub id: String,
    pub type_codes: Vec<String>,
    pub subject_ref: Option<String>,
    pub price_exts: Vec<PriceExt>,
}

pub ghost struct AuthDefV {
    pub id: Seq<char>,
    pub type_codes: Seq<Seq<char>>,
    pub subject_ref: Option<Seq<char>>,
    pub price_exts: Seq<PriceExtV>,
}

impl View for AuthDef {
    type V = AuthDefV;

    open spec fn view(&self) -> AuthDefV {
        AuthDefV {
            id: self.id@,
            type_codes: self.type_codes.deep_view(),
            subject_ref: self.subject_ref.deep_view(),
            price_exts: self.price_exts.deep_view(),
        }
    }
}

impl DeepView for AuthDef {
    type V = AuthDefV;

    open spec fn deep_view(&self) -> AuthDefV {
        self@
    }
}

/// Any other resource: only its type and id matter, for the keyed index.
pub struct OtherDef {
    pub rtype: String,
    pub id: String,
}

pub ghost struct OtherDefV {
    pub rtype: Seq<char>,
    pub id: Seq<char>,
}

impl View for OtherDef {
    type V = OtherDefV;

    open spec fn view(&self) -> OtherDefV {
        OtherDefV { rtype: self.rtype@, id: self.id@ }
    }
}

impl DeepView for OtherDef {
    type V = OtherDefV;

    open spec fn deep_view(&self) -> OtherDefV {
        self@
    }
}

/// One entry of a bundle, by resource kind.
pub enum Resource {
    Product(ProductDef),
    Authorization(AuthDef),
    Other(OtherDef),
}

pub ghost enum ResourceV {
    Product(ProductDefV),
    Authorization(AuthDefV),
    Other(OtherDefV),
}

impl View for Resource {
    type V = ResourceV;

    open spec fn view(&self) -> ResourceV {
        match self {
            Resource::Product(p) => ResourceV::Product(p@),
            Resource::Authorization(a) => ResourceV::Authorization(a@),
            Resource::Other(o) => ResourceV::Other(o@),
        }
    }
}

impl DeepView for Resource {
    type V = ResourceV;

    open spec fn deep_view(&self) -> ResourceV {
        self@
    }
}

/// One bundle document: an optional timestamp (the top-level one, else the
/// nested last-updated one) and its resource entries.
pub struct Bundle {
    pub timestamp: Option<String>,
    pub entries: Vec<Resource>,
}

pub ghost struct BundleV {
    pub timestamp: Option<Seq<char>>,
    pub entries: Seq<ResourceV>,
}

impl View for Bundle {
    type V = BundleV;

    open spec fn view(&self) -> BundleV {
        BundleV { timestamp: self.timestamp.deep_view(), entries: self.entries.deep_view() }
    }
}

impl DeepView for Bundle {
    type V = BundleV;

    open spec fn deep_view(&self) -> BundleV {
        self@
    }
}

/// A resolved package: display name, the two effective prices in thousandths
/// (0 means "no effective price"), and reimbursement-list membership.
pub struct PackageInfo {
    pub name: String,
    pub retail_price: u64,
    pub exfactory_price: u64,
    pub has_sl_entry: bool,
}

pub ghost struct PackageInfoV {
    pub name: Seq<char>,
    pub retail_price: u64,
    pub exfactory_price: u64,
    pub has_sl_entry: bool,
}

impl View for PackageInfo {
    type V = PackageInfoV;

    open spec fn view(&self) -> PackageInfoV {
        PackageInfoV {
            name: self.name@,
            retail_price: self.retail_price,
            exfactory_price: self.exfactory_price,
            has_sl_entry: self.has_sl_entry,
        }
    }
}

impl DeepView for PackageInfo {
    type V = PackageInfoV;

    open spec fn deep_view(&self) -> PackageInfoV {
        self@
    }
}

/// Bounds every stored price respects.
pub open spec fn info_bounded(info: PackageInfoV) -> bool {
    info.retail_price <= MAX_AMOUNT_MILLIS && info.exfactory_price <= MAX_AMOUNT_MILLIS
}

/// Whether some entry of the sequence carries the key.
pub open spec fn map_contains(s: Seq<(u64, PackageInfoV)>, g: u64) -> bool {
    exists|i: int| 0 <= i < s.len() && (#[trigger] s[i]).0 == g
}

/// The record stored under a key, if any (keys are unique in a map).
pub open spec fn map_get(s: Seq<(u64, PackageInfoV)>, g: u64) -> Option<PackageInfoV>
    decreases s.len(),
{
    if s.len() == 0 {
        None
    } else if s[0].0 == g {
        Some(s[0].1)
    } else {
        map_get(s.skip(1), g)
    }
}

/// Position of the first entry with the key, or -1.
pub open spec fn first_key_index(s: Seq<(u64, PackageInfoV)>, g: u64) -> int
    decreases s.len(),
{
    if s.len() == 0 {
        -1
    } else if s[0].0 == g {
        0
    } else {
        let r = first_key_index(s.skip(1), g);
        if r == -1 {
            -1
        } else {
            r + 1
        }
    }
}

/// Keyed insertion: replace the entry holding the key, else append.
pub open spec fn map_insert_spec(
    s: Seq<(u64, PackageInfoV)>,
    g: u64,
    info: PackageInfoV,
) -> Seq<(u64, PackageInfoV)> {
    let i = first_key_index(s, g);
    if i == -1 {
        s.push((g, info))
    } else {
        s.update(i, (g, info))
    }
}

pub proof fn lemma_first_key_index(s: Seq<(u64, PackageInfoV)>, g: u64)
    ensures
        first_key_index(s, g) == -1 ==> !map_contains(s, g) && map_get(s, g).is_none(),
        first_key_index(s, g) != -1 ==> {
            let r = first_key_index(s, g);
            &&& 0 <= r < s.len()
            &&& s[r].0 == g
            &&& forall|i: int| 0 <= i < r ==> (#[trigger] s[i]).0 != g
            &&& map_get(s, g) == Some(s[r].1)
        },
    decreases s.len(),
{
    if s.len() > 0 && s[0].0 != g {
        lemma_first_key_index(s.skip(1), g);
        let r1 = first_key_index(s.skip(1), g);
        if r1 == -1 {
            assert forall|i: int| 0 <= i < s.len() implies (#[trigger] s[i]).0 != g by {
                if i >= 1 {
                    assert(s.skip(1)[i - 1] == s[i]);
                    assert(!(s.skip(1)[i - 1].0 == g)) by {
                        assert(!map_contains(s.skip(1), g));
                    }
                }
            }
            assert(!map_contains(s, g));
        } else {
            assert(s.skip(1)[r1] == s[r1 + 1]);
            assert forall|i: int| 0 <= i < r1 + 1 implies (#[trigger] s[i]).0 != g by {
                if i >= 1 {
                    assert(s.skip(1)[i - 1] == s[i]);
                }
            }
        }
    }
}

/// Unique keys: no key occurs twice.
pub open spec fn distinct_keys(s: Seq<(u64, PackageInfoV)>) -> bool {
    forall|i: int, j: int|
        0 <= i < j < s.len() ==> (#[trigger] s[i]).0 != (#[trigger] s[j]).0
}

/// A package map keyed by numeric identifier, in insertion order, with
/// unique keys; insertion with an existing key replaces the entry in place.
pub struct PackageMap {
    entries: Vec<(u64, PackageInfo)>,
}

impl View for PackageMap {
    type V = Seq<(u64, PackageInfoV)>;

    closed spec fn view(&self) -> Seq<(u64, PackageInfoV)> {
        self.entries@.map_values(|e: (u64, PackageInfo)| (e.0, e.1@))
    }
}

impl PackageMap {
    /// Well-formed: unique keys, every key a valid identifier value, every
    /// price within bounds.
    pub open spec fn wf(&self) -> bool {
        &&& distinct_keys(self@)
        &&& forall|i: int|
            0 <= i < self@.len() ==> gtin_in_range((#[trigger] self@[i]).0) && info_bounded(
                self@[i].1,
            )
    }

    pub fn new() -> (r: PackageMap)
        ensures
            r@ =~= Seq::<(u64, PackageInfoV)>::empty(),
            r.wf(),
    {
        PackageMap { entries: Vec::new() }
    }

    pub fn len(&self) -> (r: usize)
        ensures
            r == self@.len(),
    {
        self.entries.len()
    }

    pub fn key_at(&self, i: usize) -> (r: u64)
        requires
            i < self@.len(),
        ensures
            r == self@[i as int].0,
    {
        self.entries[i].0
    }

    pub fn info_at(&self, i: usize) -> (r: &PackageInfo)
        requires
            i < self@.len(),
        ensures
            r@ == self@[i as int].1,
    {
        &self.entries[i].1
    }

    /// Look a key up; `Some` exactly when the map holds it.
    pub fn get(&self, g: u64) -> (r: Option<&PackageInfo>)
        ensures
            r matches Some(info) ==> map_get(self@, g) == Some(info@) && map_contains(self@, g),
            r.is_none() ==> map_get(self@, g).is_none() && !map_contains(self@, g),
    {
        proof {
            lemma_first_key_index(self@, g);
        }
        let n = self.entries.len();
        let mut i: usize = 0;
        while i < n
            invariant
                i <= n,
                n == self@.len(),
                self@.len() == self.entries@.len(),
                forall|k: int| 0 <= k < i ==> (#[trigger] self@[k]).0 != g,
            decreases n - i,
        {
            if self.entries[i].0 == g {
                proof {
                    assert(self@[i as int] == ((self.entries@[i as int]).0, (self.entries@[
                        i as int
                    ]).1@));
                    assert(self@[i as int].0 == g);
                    assert(map_contains(self@, g));
                    lemma_first_key_index(self@, g);
                    let r = first_key_index(self@, g);
                    assert(r != -1);
                    assert(r >= i) by {
                        if r < i {
                            assert(self@[r].0 != g);
                        }
                    }
                    assert(r <= i) by {
                        if r > i {
                            assert(self@[i as int].0 != g);
                        }
                    }
                }
                return Some(&self.entries[i].1);
            }
            i = i + 1;
        }
        proof {
            assert(!map_contains(self@, g));
            lemma_first_key_index(self@, g);
            if first_key_index(self@, g) != -1 {
                assert(map_contains(self@, g));
            }
        }
        None
    }

    /// Insert a record under a key; an existing entry is replaced in place,
    /// so iteration order never depends on when a key was overwritten.
    pub fn insert(&mut self, g: u64, info: PackageInfo)
        requires
            old(self).wf(),
            gtin_in_range(g),
            info@.retail_price <= MAX_AMOUNT_MILLIS,
            info@.exfactory_price <= MAX_AMOUNT_MILLIS,
        ensures
            final(self)@ == map_insert_spec(old(self)@, g, info@),
            final(self).wf(),
            map_contains(final(self)@, g),
    {
        proof {
            lemma_first_key_index(self@, g);
        }
        let ghost s0 = self@;
        let n = self.entries.len();
        let mut i: usize = 0;
        while i < n
            invariant
                i <= n,
                n == self.entries@.len(),
                self@ == s0,
                s0 == old(self)@,
                old(self).wf(),
                gtin_in_range(g),
                info@.retail_price <= MAX_AMOUNT_MILLIS,
                info@.exfactory_price <= MAX_AMOUNT_MILLIS,
                forall|k: int| 0 <= k < i ==> (#[trigger] s0[k]).0 != g,
            decreases n - i,
        {
            if self.entries[i].0 == g {
                proof {
                    assert(s0[i as int] == ((self.entries@[i as int]).0, (self.entries@[
                        i as int
                    ]).1@));
                    assert(s0[i as int].0 == g);
                    assert(map_contains(s0, g));
                    lemma_first_key_index(s0, g);
                    let r = first_key_index(s0, g);
                    assert(r != -1);
                    assert(r >= i) by {
                        if r < i {
                            assert(s0[r].0 != g);
                        }
                    }
                    assert(r <= i) by {
                        if r > i {
                            assert(s0[i as int].0 != g);
                        }
                    }
                }
                self.entries.remove(i);
                self.entries.insert(i, (g, info));
                proof {
                    assert(self@ =~= s0.update(i as int, (g, info@)));
                    assert(distinct_keys(self@)) by {
                        assert forall|k: int, l: int|
                            0 <= k < l < self@.len() implies (#[trigger] self@[k]).0 != (
                        #[trigger] self@[l]).0 by {
                            assert(s0[k].0 != s0[l].0);
                            assert(k != i ==> self@[k] == s0[k]);
                            assert(l != i ==> self@[l] == s0[l]);
                            assert(s0[i as int].0 == g);
                        }
                    }
                    assert(map_contains(self@, g)) by {
                        assert(self@[i as int].0 == g);
                    }
                }
                return ;
            }
            i = i + 1;
        }
        proof {
            assert(!map_contains(s0, g));
            lemma_first_key_index(s0, g);
            if first_key_index(s0, g) != -1 {
                assert(map_contains(s0, g));
            }
        }
        self.entries.push((g, info));
        proof {
            assert(self@ =~= s0.push((g, info@)));
            assert(distinct_keys(self@)) by {
                assert(forall|k: int|
                    0 <= k < s0.len() ==> (#[trigger] self@[k]).0 == s0[k].0);
                assert(self@[s0.len() as int].0 == g);
            }
            assert(map_contains(self@, g)) by {
                assert(self@[s0.len() as int].0 == g);
            }
        }
    }
}

/// Keyed union: every entry of `b` inserted into `a` in order, so on a key
/// collision the entry of `b` wins.
pub open spec fn map_union(
    a: Seq<(u64, PackageInfoV)>,
    b: Seq<(u64, PackageInfoV)>,
) -> Seq<(u64, PackageInfoV)>
    decreases b.len(),
{
    if b.len() == 0 {
        a
    } else {
        map_union(map_insert_spec(a, b[0].0, b[0].1), b.skip(1))
    }
}

impl PackageMap {
    /// Fold another map in, last write winning on key collisions.
    pub fn merge_from(&mut self, other: &PackageMap)
        requires
            old(self).wf(),
            other.wf(),
        ensures
            final(self)@ == map_union(old(self)@, other@),
            final(self).wf(),
    {
        let n = other.len();
        let mut i: usize = 0;
        proof {
            assert(other@.skip(0) =~= other@);
        }
        while i < n
            invariant
                i <= n,
                n == other@.len(),
                self.wf(),
                other.wf(),
                map_union(old(self)@, other@) == map_union(self@, other@.skip(i as int)),
            decreases n - i,
        {
            let g = other.key_at(i);
            let info = other.info_at(i);
            let info_owned = PackageInfo {
                name: info.name.clone(),
                retail_price: info.retail_price,
                exfactory_price: info.exfactory_price,
                has_sl_entry: info.has_sl_entry,
            };
            proof {
                assert(gtin_in_range(other@[i as int].0) && info_bounded(other@[i as int].1));
                assert(info_owned@ == other@[i as int].1);
            }
            let ghost pre = self@;
            self.insert(g, info_owned);
            proof {
                let tail = other@.skip(i as int);
                assert(tail[0] == other@[i as int]);
                assert(tail.skip(1) =~= other@.skip(i + 1));
                assert(map_union(pre, tail) == map_union(
                    map_insert_spec(pre, g, info_owned@),
                    tail.skip(1),
                ));
            }
            i = i + 1;
        }
        proof {
            assert(other@.skip(n as int) =~= Seq::<(u64, PackageInfoV)>::empty());
        }
    }
}

} // verus!
