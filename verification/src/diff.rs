//! The diff engine: two resolved snapshots in, categorized change records
//! out.  Every category is pinned to a spec-level fold over the two
//! snapshots, so the classification is a function of the snapshots alone.

use vstd::prelude::*;
use vstd::string::StringExecFns;
use crate::model::{
    PackageInfo,
    PackageInfoV,
    PackageMap,
    map_contains,
    map_get,
    distinct_keys,
};
use crate::gtin::{gtin_digits, gtin_to_string, gtin_in_range};
use crate::text::str_eq;

verus! {

/// A record of the `new` and `del` categories.
pub struct BasicChange {
    pub gtin: String,
    pub name: String,
    pub retail_price: u64,
    pub exfactory_price: u64,
}

pub ghost struct BasicChangeV {
    pub gtin: Seq<char>,
    pub name: Seq<char>,
    pub retail_price: u64,
    pub exfactory_price: u64,
}

impl View for BasicChange {
    type V = BasicChangeV;

    open spec fn view(&self) -> BasicChangeV {
        BasicChangeV {
            gtin: self.gtin@,
            name: self.name@,
            retail_price: self.retail_price,
            exfactory_price: self.exfactory_price,
        }
    }
}

impl DeepView for BasicChange {
    type V = BasicChangeV;

    open spec fn deep_view(&self) -> BasicChangeV {
        self@
    }
}

/// A record of the reimbursement-list entry and removal categories.
pub struct SlChange {
    pub gtin: String,
    pub name: String,
}

pub ghost struct SlChangeV {
    pub gtin: Seq<char>,
    pub name: Seq<char>,
}

impl View for SlChange {
    type V = SlChangeV;

    open spec fn view(&self) -> SlChangeV {
        SlChangeV { gtin: self.gtin@, name: self.name@ }
    }
}

impl DeepView for SlChange {
    type V = SlChangeV;

    open spec fn deep_view(&self) -> SlChangeV {
        self@
    }
}

/// A record of the name-change category.
pub struct NameChange {
    pub gtin: String,
    pub name: String,
    pub old_name: String,
    pub new_name: String,
}

pub ghost struct NameChangeV {
    pub gtin: Seq<char>,
    pub name: Seq<char>,
    pub old_name: Seq<char>,
    pub new_name: Seq<char>,
}

impl View for NameChange {
    type V = NameChangeV;

    open spec fn view(&self) -> NameChangeV {
        NameChangeV {
            gtin: self.gtin@,
            name: self.name@,
            old_name: self.old_name@,
            new_name: self.new_name@,
        }
    }
}

impl DeepView for NameChange {
    type V = NameChangeV;

    open spec fn deep_view(&self) -> NameChangeV {
        self@
    }
}

/// The two price axes, compared independently.
#[derive(Clone, Copy, PartialEq, Eq, Structural, Debug)]
pub enum PriceType {
    Retail,
    Exfactory,
}

/// A record of the four directional price-change categories.  Prices are in
/// thousandths; 0 stands for "absent".
pub struct PriceChange {
    pub gtin: String,
    pub name: String,
    pub price_type: PriceType,
    pub old_price: u64,
    pub new_price: u64,
    pub difference: i64,
}

pub ghost struct PriceChangeV {
    pub gtin: Seq<char>,
    pub name: Seq<char>,
    pub price_type: PriceType,
    pub old_price: u64,
    pub new_price: u64,
    pub difference: i64,
}

impl View for PriceChange {
    type V = PriceChangeV;

    open spec fn view(&self) -> PriceChangeV {
        PriceChangeV {
            gtin: self.gtin@,
            name: self.name@,
            price_type: self.price_type,
            old_price: self.old_price,
            new_price: self.new_price,
            difference: self.difference,
        }
    }
}

impl DeepView for PriceChange {
    type V = PriceChangeV;

    open spec fn deep_view(&self) -> PriceChangeV {
        self@
    }
}

/// The classified output: nine category arrays.
pub struct DiffResult {
    pub new: Vec<BasicChange>,
    pub del: Vec<BasicChange>,
    pub sl_entry: Vec<SlChange>,
    pub sl_entry_delete: Vec<SlChange>,
    pub name_base: Vec<NameChange>,
    pub retail_up: Vec<PriceChange>,
    pub retail_down: Vec<PriceChange>,
    pub exfactory_up: Vec<PriceChange>,
    pub exfactory_down: Vec<PriceChange>,
}

/// The record a package contributes to `new` or `del`.
pub open spec fn basic_of(g: u64, info: PackageInfoV) -> BasicChangeV {
    BasicChangeV {
        gtin: gtin_digits(g),
        name: info.name,
        retail_price: info.retail_price,
        exfactory_price: info.exfactory_price,
    }
}

/// Packages of the new snapshot absent from the old one, in order.
pub open spec fn diff_new_spec(
    old: Seq<(u64, PackageInfoV)>,
    new: Seq<(u64, PackageInfoV)>,
) -> Seq<BasicChangeV>
    decreases new.len(),
{
    if new.len() == 0 {
        Seq::empty()
    } else {
        let rest = diff_new_spec(old, new.skip(1));
        if !map_contains(old, new[0].0) {
            seq![basic_of(new[0].0, new[0].1)] + rest
        } else {
            rest
        }
    }
}

/// Packages of the old snapshot absent from the new one, in order.
pub open spec fn diff_del_spec(
    old: Seq<(u64, PackageInfoV)>,
    new: Seq<(u64, PackageInfoV)>,
) -> Seq<BasicChangeV>
    decreases old.len(),
{
    if old.len() == 0 {
        Seq::empty()
    } else {
        let rest = diff_del_spec(old.skip(1), new);
        if !map_contains(new, old[0].0) {
            seq![basic_of(old[0].0, old[0].1)] + rest
        } else {
            rest
        }
    }
}

pub open spec fn sl_of(g: u64, info: PackageInfoV) -> SlChangeV {
    SlChangeV { gtin: gtin_digits(g), name: info.name }
}

/// Packages present in both snapshots whose reimbursement-list membership
/// switches as given.
pub open spec fn diff_sl_spec(
    old: Seq<(u64, PackageInfoV)>,
    new: Seq<(u64, PackageInfoV)>,
    gained: bool,
) -> Seq<SlChangeV>
    decreases new.len(),
{
    if new.len() == 0 {
        Seq::empty()
    } else {
        let rest = diff_sl_spec(old, new.skip(1), gained);
        match map_get(old, new[0].0) {
            Some(oi) => {
                if oi.has_sl_entry != new[0].1.has_sl_entry && new[0].1.has_sl_entry == gained {
                    seq![sl_of(new[0].0, new[0].1)] + rest
                } else {
                    rest
                }
            },
            None => rest,
        }
    }
}

pub open spec fn name_of(g: u64, oi: PackageInfoV, ni: PackageInfoV) -> NameChangeV {
    NameChangeV { gtin: gtin_digits(g), name: ni.name, old_name: oi.name, new_name: ni.name }
}

/// Packages present in both snapshots whose names differ exactly.
pub open spec fn diff_name_spec(
    old: Seq<(u64, PackageInfoV)>,
    new: Seq<(u64, PackageInfoV)>,
) -> Seq<NameChangeV>
    decreases new.len(),
{
    if new.len() == 0 {
        Seq::empty()
    } else {
        let rest = diff_name_spec(old, new.skip(1));
        match map_get(old, new[0].0) {
            Some(oi) => {
                if oi.name != new[0].1.name {
                    seq![name_of(new[0].0, oi, new[0].1)] + rest
                } else {
                    rest
                }
            },
            None => rest,
        }
    }
}

/// The price of the given axis.
pub open spec fn price_of(info: PackageInfoV, t: PriceType) -> u64 {
    match t {
        PriceType::Retail => info.retail_price,
        PriceType::Exfactory => info.exfactory_price,
    }
}

/// The signed price movement on one axis, in thousandths.
pub open spec fn price_delta(oi: PackageInfoV, ni: PackageInfoV, t: PriceType) -> int {
    price_of(ni, t) - price_of(oi, t)
}

/// A movement counts only beyond the epsilon of one thousandth.
pub open spec fn price_changed(oi: PackageInfoV, ni: PackageInfoV, t: PriceType) -> bool {
    price_delta(oi, ni, t) > 1 || price_delta(oi, ni, t) < -1
}

pub open spec fn price_change_of(
    g: u64,
    oi: PackageInfoV,
    ni: PackageInfoV,
    t: PriceType,
) -> PriceChangeV {
    PriceChangeV {
        gtin: gtin_digits(g),
        name: ni.name,
        price_type: t,
        old_price: price_of(oi, t),
        new_price: price_of(ni, t),
        difference: price_delta(oi, ni, t) as i64,
    }
}

/// Packages present in both snapshots whose price on the given axis moves
/// beyond the epsilon, in the given direction.
pub open spec fn diff_price_spec(
    old: Seq<(u64, PackageInfoV)>,
    new: Seq<(u64, PackageInfoV)>,
    t: PriceType,
    up: bool,
) -> Seq<PriceChangeV>
    decreases new.len(),
{
    if new.len() == 0 {
        Seq::empty()
    } else {
        let rest = diff_price_spec(old, new.skip(1), t, up);
        match map_get(old, new[0].0) {
            Some(oi) => {
                if price_changed(oi, new[0].1, t) && (price_delta(oi, new[0].1, t) > 0) == up {
                    seq![price_change_of(new[0].0, oi, new[0].1, t)] + rest
                } else {
                    rest
                }
            },
            None => rest,
        }
    }
}

/// Packages of the new snapshot absent from the old.
fn diff_new_exec(old: &PackageMap, new: &PackageMap) -> (out: Vec<BasicChange>)
    requires
        old.wf(),
        new.wf(),
    ensures
        out.deep_view() == diff_new_spec(old@, new@),
{
    let n = new.len();
    let mut out: Vec<BasicChange> = Vec::new();
    let mut i: usize = 0;
    proof {
        assert(new@.skip(0) =~= new@);
        assert(out.deep_view() + diff_new_spec(old@, new@) =~= diff_new_spec(old@, new@));
    }
    while i < n
        invariant
            i <= n,
            n == new@.len(),
            old.wf(),
            new.wf(),
            diff_new_spec(old@, new@) == out.deep_view() + diff_new_spec(
                old@,
                new@.skip(i as int),
            ),
        decreases n - i,
    {
        let ghost tail = new@.skip(i as int);
        let ghost pre = out.deep_view();
        proof {
            assert(tail[0] == new@[i as int]);
            assert(tail.skip(1) =~= new@.skip(i + 1));
        }
        let g = new.key_at(i);
        let info = new.info_at(i);
        match old.get(g) {
            None => {
                proof {
                    assert(gtin_in_range(g));
                }
                let rec = BasicChange {
                    gtin: gtin_to_string(g),
                    name: info.name.clone(),
                    retail_price: info.retail_price,
                    exfactory_price: info.exfactory_price,
                };
                proof {
                    assert(rec@ == basic_of(g, new@[i as int].1));
                }
                out.push(rec);
                proof {
                    assert(out.deep_view() =~= pre.push(rec@));
                    assert(pre + (seq![basic_of(g, new@[i as int].1)] + diff_new_spec(
                        old@,
                        new@.skip(i + 1),
                    )) =~= pre.push(rec@) + diff_new_spec(old@, new@.skip(i + 1)));
                }
            },
            Some(_) => {
            },
        }
        i = i + 1;
    }
    proof {
        assert(new@.skip(n as int) =~= Seq::<(u64, PackageInfoV)>::empty());
        assert(out.deep_view() + Seq::<BasicChangeV>::empty() =~= out.deep_view());
    }
    out
}

/// Packages of the old snapshot absent from the new.
fn diff_del_exec(old: &PackageMap, new: &PackageMap) -> (out: Vec<BasicChange>)
    requires
        old.wf(),
        new.wf(),
    ensures
        out.deep_view() == diff_del_spec(old@, new@),
{
    let n = old.len();
    let mut out: Vec<BasicChange> = Vec::new();
    let mut i: usize = 0;
    proof {
        assert(old@.skip(0) =~= old@);
        assert(out.deep_view() + diff_del_spec(old@, new@) =~= diff_del_spec(old@, new@));
    }
    while i < n
        invariant
            i <= n,
            n == old@.len(),
            old.wf(),
            new.wf(),
            diff_del_spec(old@, new@) == out.deep_view() + diff_del_spec(
                old@.skip(i as int),
                new@,
            ),
        decreases n - i,
    {
        let ghost tail = old@.skip(i as int);
        let ghost pre = out.deep_view();
        proof {
            assert(tail[0] == old@[i as int]);
            assert(tail.skip(1) =~= old@.skip(i + 1));
        }
        let g = old.key_at(i);
        let info = old.info_at(i);
        match new.get(g) {
            None => {
                proof {
                    assert(gtin_in_range(g));
                }
                let rec = BasicChange {
                    gtin: gtin_to_string(g),
                    name: info.name.clone(),
                    retail_price: info.retail_price,
                    exfactory_price: info.exfactory_price,
                };
                proof {
                    assert(rec@ == basic_of(g, old@[i as int].1));
                }
                out.push(rec);
                proof {
                    assert(out.deep_view() =~= pre.push(rec@));
                    assert(pre + (seq![basic_of(g, old@[i as int].1)] + diff_del_spec(
                        old@.skip(i + 1),
                        new@,
                    )) =~= pre.push(rec@) + diff_del_spec(old@.skip(i + 1), new@));
                }
            },
            Some(_) => {
            },
        }
        i = i + 1;
    }
    proof {
        assert(old@.skip(n as int) =~= Seq::<(u64, PackageInfoV)>::empty());
        assert(out.deep_view() + Seq::<BasicChangeV>::empty() =~= out.deep_view());
    }
    out
}


/// Packages whose reimbursement-list membership switches as given.
fn diff_sl_exec(old: &PackageMap, new: &PackageMap, gained: bool) -> (out: Vec<SlChange>)
    requires
        old.wf(),
        new.wf(),
    ensures
        out.deep_view() == diff_sl_spec(old@, new@, gained),
{
    let n = new.len();
    let mut out: Vec<SlChange> = Vec::new();
    let mut i: usize = 0;
    proof {
        assert(new@.skip(0) =~= new@);
        assert(out.deep_view() + diff_sl_spec(old@, new@, gained) =~= diff_sl_spec(
            old@,
            new@,
            gained,
        ));
    }
    while i < n
        invariant
            i <= n,
            n == new@.len(),
            old.wf(),
            new.wf(),
            diff_sl_spec(old@, new@, gained) == out.deep_view() + diff_sl_spec(
                old@,
                new@.skip(i as int),
                gained,
            ),
        decreases n - i,
    {
        let ghost tail = new@.skip(i as int);
        let ghost pre = out.deep_view();
        proof {
            assert(tail[0] == new@[i as int]);
            assert(tail.skip(1) =~= new@.skip(i + 1));
        }
        let g = new.key_at(i);
        let info = new.info_at(i);
        match old.get(g) {
            Some(oi) => {
                if oi.has_sl_entry != info.has_sl_entry && info.has_sl_entry == gained {
                    proof {
                        assert(gtin_in_range(g));
                    }
                    let rec = SlChange { gtin: gtin_to_string(g), name: info.name.clone() };
                    proof {
                        assert(rec@ == sl_of(g, new@[i as int].1));
                    }
                    out.push(rec);
                    proof {
                        assert(out.deep_view() =~= pre.push(rec@));
                        assert(pre + (seq![sl_of(g, new@[i as int].1)] + diff_sl_spec(
                            old@,
                            new@.skip(i + 1),
                            gained,
                        )) =~= pre.push(rec@) + diff_sl_spec(old@, new@.skip(i + 1), gained));
                    }
                }
            },
            None => {
            },
        }
        i = i + 1;
    }
    proof {
        assert(new@.skip(n as int) =~= Seq::<(u64, PackageInfoV)>::empty());
        assert(out.deep_view() + Seq::<SlChangeV>::empty() =~= out.deep_view());
    }
    out
}

/// Packages present in both snapshots under different names.
fn diff_name_exec(old: &PackageMap, new: &PackageMap) -> (out: Vec<NameChange>)
    requires
        old.wf(),
        new.wf(),
    ensures
        out.deep_view() == diff_name_spec(old@, new@),
{
    let n = new.len();
    let mut out: Vec<NameChange> = Vec::new();
    let mut i: usize = 0;
    proof {
        assert(new@.skip(0) =~= new@);
        assert(out.deep_view() + diff_name_spec(old@, new@) =~= diff_name_spec(old@, new@));
    }
    while i < n
        invariant
            i <= n,
            n == new@.len(),
            old.wf(),
            new.wf(),
            diff_name_spec(old@, new@) == out.deep_view() + diff_name_spec(
                old@,
                new@.skip(i as int),
            ),
        decreases n - i,
    {
        let ghost tail = new@.skip(i as int);
        let ghost pre = out.deep_view();
        proof {
            assert(tail[0] == new@[i as int]);
            assert(tail.skip(1) =~= new@.skip(i + 1));
        }
        let g = new.key_at(i);
        let info = new.info_at(i);
        match old.get(g) {
            Some(oi) => {
                let same = str_eq(oi.name.as_str(), info.name.as_str());
                if !same {
                    proof {
                        assert(gtin_in_range(g));
                    }
                    let rec = NameChange {
                        gtin: gtin_to_string(g),
                        name: info.name.clone(),
                        old_name: oi.name.clone(),
                        new_name: info.name.clone(),
                    };
                    proof {
                        assert(rec@ == name_of(g, oi@, new@[i as int].1));
                    }
                    out.push(rec);
                    proof {
                        assert(out.deep_view() =~= pre.push(rec@));
                        assert(pre + (seq![name_of(g, oi@, new@[i as int].1)] + diff_name_spec(
                            old@,
                            new@.skip(i + 1),
                        )) =~= pre.push(rec@) + diff_name_spec(old@, new@.skip(i + 1)));
                    }
                }
            },
            None => {
            },
        }
        i = i + 1;
    }
    proof {
        assert(new@.skip(n as int) =~= Seq::<(u64, PackageInfoV)>::empty());
        assert(out.deep_view() + Seq::<NameChangeV>::empty() =~= out.deep_view());
    }
    out
}

/// The price of the given axis.
fn price_of_exec(info: &PackageInfo, t: PriceType) -> (r: u64)
    ensures
        r == price_of(info@, t),
{
    match t {
        PriceType::Retail => info.retail_price,
        PriceType::Exfactory => info.exfactory_price,
    }
}

/// Packages whose price on the given axis moves beyond the epsilon in the
/// given direction.
fn diff_price_exec(old: &PackageMap, new: &PackageMap, t: PriceType, up: bool) -> (out: Vec<
    PriceChange,
>)
    requires
        old.wf(),
        new.wf(),
    ensures
        out.deep_view() == diff_price_spec(old@, new@, t, up),
{
    let n = new.len();
    let mut out: Vec<PriceChange> = Vec::new();
    let mut i: usize = 0;
    proof {
        assert(new@.skip(0) =~= new@);
        assert(out.deep_view() + diff_price_spec(old@, new@, t, up) =~= diff_price_spec(
            old@,
            new@,
            t,
            up,
        ));
    }
    while i < n
        invariant
            i <= n,
            n == new@.len(),
            old.wf(),
            new.wf(),
            diff_price_spec(old@, new@, t, up) == out.deep_view() + diff_price_spec(
                old@,
                new@.skip(i as int),
                t,
                up,
            ),
        decreases n - i,
    {
        let ghost tail = new@.skip(i as int);
        let ghost pre = out.deep_view();
        proof {
            assert(tail[0] == new@[i as int]);
            assert(tail.skip(1) =~= new@.skip(i + 1));
        }
        let g = new.key_at(i);
        let info = new.info_at(i);
        match old.get(g) {
            Some(oi) => {
                let old_p = price_of_exec(oi, t);
                let new_p = price_of_exec(info, t);
                proof {
                    assert(gtin_in_range(g));
                    crate::model::lemma_first_key_index(old@, g);
                    let ri = crate::model::first_key_index(old@, g);
                    assert(crate::model::info_bounded(old@[ri].1));
                    assert(crate::model::info_bounded(new@[i as int].1));
                    assert(old_p <= crate::model::MAX_AMOUNT_MILLIS);
                    assert(new_p <= crate::model::MAX_AMOUNT_MILLIS);
                }
                let delta: i64 = (new_p as i64) - (old_p as i64);
                if (delta > 1 || delta < -1) && ((delta > 0) == up) {
                    let rec = PriceChange {
                        gtin: gtin_to_string(g),
                        name: info.name.clone(),
                        price_type: t,
                        old_price: old_p,
                        new_price: new_p,
                        difference: delta,
                    };
                    proof {
                        assert(rec@ == price_change_of(g, oi@, new@[i as int].1, t));
                    }
                    out.push(rec);
                    proof {
                        assert(out.deep_view() =~= pre.push(rec@));
                        assert(pre + (seq![price_change_of(g, oi@, new@[i as int].1, t)]
                            + diff_price_spec(old@, new@.skip(i + 1), t, up)) =~= pre.push(rec@)
                            + diff_price_spec(old@, new@.skip(i + 1), t, up));
                    }
                }
            },
            None => {
            },
        }
        i = i + 1;
    }
    proof {
        assert(new@.skip(n as int) =~= Seq::<(u64, PackageInfoV)>::empty());
        assert(out.deep_view() + Seq::<PriceChangeV>::empty() =~= out.deep_view());
    }
    out
}

/// Classify every difference between two snapshots.  Each category array is
/// exactly the spec-level fold over the two snapshot views, so identical
/// snapshots always classify identically.
pub fn compute_diff(old: &PackageMap, new: &PackageMap) -> (r: DiffResult)
    requires
        old.wf(),
        new.wf(),
    ensures
        r.new.deep_view() == diff_new_spec(old@, new@),
        r.del.deep_view() == diff_del_spec(old@, new@),
        r.sl_entry.deep_view() == diff_sl_spec(old@, new@, true),
        r.sl_entry_delete.deep_view() == diff_sl_spec(old@, new@, false),
        r.name_base.deep_view() == diff_name_spec(old@, new@),
        r.retail_up.deep_view() == diff_price_spec(old@, new@, PriceType::Retail, true),
        r.retail_down.deep_view() == diff_price_spec(old@, new@, PriceType::Retail, false),
        r.exfactory_up.deep_view() == diff_price_spec(old@, new@, PriceType::Exfactory, true),
        r.exfactory_down.deep_view() == diff_price_spec(old@, new@, PriceType::Exfactory, false),
{
    DiffResult {
        new: diff_new_exec(old, new),
        del: diff_del_exec(old, new),
        sl_entry: diff_sl_exec(old, new, true),
        sl_entry_delete: diff_sl_exec(old, new, false),
        name_base: diff_name_exec(old, new),
        retail_up: diff_price_exec(old, new, PriceType::Retail, true),
        retail_down: diff_price_exec(old, new, PriceType::Retail, false),
        exfactory_up: diff_price_exec(old, new, PriceType::Exfactory, true),
        exfactory_down: diff_price_exec(old, new, PriceType::Exfactory, false),
    }
}

/// Every key of a snapshot is a package identifier in range.
pub open spec fn keys_in_range(s: Seq<(u64, PackageInfoV)>) -> bool {
    forall|i: int| 0 <= i < s.len() ==> gtin_in_range((#[trigger] s[i]).0)
}

/// How many records of the category carry the identifier string.
pub open spec fn count_gtin(s: Seq<BasicChangeV>, t: Seq<char>) -> nat
    decreases s.len(),
{
    if s.len() == 0 {
        0
    } else {
        (if s[0].gtin == t {
            1nat
        } else {
            0nat
        }) + count_gtin(s.skip(1), t)
    }
}

proof fn lemma_count_cons(r: BasicChangeV, rest: Seq<BasicChangeV>, t: Seq<char>)
    ensures
        count_gtin(seq![r] + rest, t) == (if r.gtin == t {
            1nat
        } else {
            0nat
        }) + count_gtin(rest, t),
{
    assert((seq![r] + rest)[0] == r);
    assert((seq![r] + rest).skip(1) =~= rest);
}

/// The classification is a function of the two snapshot views alone: over
/// identical snapshot pairs, every category comes out identical, contents
/// and counts alike.
pub proof fn lemma_diff_deterministic(
    o1: Seq<(u64, PackageInfoV)>,
    n1: Seq<(u64, PackageInfoV)>,
    o2: Seq<(u64, PackageInfoV)>,
    n2: Seq<(u64, PackageInfoV)>,
)
    requires
        o1 == o2,
        n1 == n2,
    ensures
        diff_new_spec(o1, n1) == diff_new_spec(o2, n2),
        diff_del_spec(o1, n1) == diff_del_spec(o2, n2),
        diff_sl_spec(o1, n1, true) == diff_sl_spec(o2, n2, true),
        diff_sl_spec(o1, n1, false) == diff_sl_spec(o2, n2, false),
        diff_name_spec(o1, n1) == diff_name_spec(o2, n2),
        diff_price_spec(o1, n1, PriceType::Retail, true) == diff_price_spec(
            o2,
            n2,
            PriceType::Retail,
            true,
        ),
        diff_price_spec(o1, n1, PriceType::Retail, false) == diff_price_spec(
            o2,
            n2,
            PriceType::Retail,
            false,
        ),
        diff_price_spec(o1, n1, PriceType::Exfactory, true) == diff_price_spec(
            o2,
            n2,
            PriceType::Exfactory,
            true,
        ),
        diff_price_spec(o1, n1, PriceType::Exfactory, false) == diff_price_spec(
            o2,
            n2,
            PriceType::Exfactory,
            false,
        ),
{
}

proof fn lemma_tail_contains(s: Seq<(u64, PackageInfoV)>, g: u64)
    requires
        s.len() > 0,
    ensures
        map_contains(s.skip(1), g) ==> map_contains(s, g),
        keys_in_range(s) ==> keys_in_range(s.skip(1)),
        distinct_keys(s) ==> distinct_keys(s.skip(1)),
{
    assert(forall|j: int| 0 <= j < s.skip(1).len() ==> #[trigger] s.skip(1)[j] == s[j + 1]);
    if map_contains(s.skip(1), g) {
        let w = choose|i: int| 0 <= i < s.skip(1).len() && (#[trigger] s.skip(1)[i]).0 == g;
        assert(s[w + 1].0 == g);
    }
}

proof fn lemma_del_count_zero(
    old: Seq<(u64, PackageInfoV)>,
    new: Seq<(u64, PackageInfoV)>,
    g: u64,
)
    requires
        keys_in_range(old),
        gtin_in_range(g),
        !map_contains(old, g),
    ensures
        count_gtin(diff_del_spec(old, new), gtin_digits(g)) == 0,
    decreases old.len(),
{
    if old.len() > 0 {
        lemma_tail_contains(old, g);
        assert(!map_contains(old.skip(1), g));
        lemma_del_count_zero(old.skip(1), new, g);
        assert(old[0].0 != g) by {
            if old[0].0 == g {
                assert(map_contains(old, g));
            }
        }
        if !map_contains(new, old[0].0) {
            let r = basic_of(old[0].0, old[0].1);
            assert(r.gtin != gtin_digits(g)) by {
                if r.gtin == gtin_digits(g) {
                    crate::gtin::lemma_gtin_digits_injective(old[0].0, g);
                }
            }
            lemma_count_cons(r, diff_del_spec(old.skip(1), new), gtin_digits(g));
        }
    }
}

proof fn lemma_del_count_one(
    old: Seq<(u64, PackageInfoV)>,
    new: Seq<(u64, PackageInfoV)>,
    g: u64,
)
    requires
        distinct_keys(old),
        keys_in_range(old),
        map_contains(old, g),
        !map_contains(new, g),
    ensures
        count_gtin(diff_del_spec(old, new), gtin_digits(g)) == 1,
    decreases old.len(),
{
    assert(old.len() > 0) by {
        if old.len() == 0 {
            let w = choose|i: int| 0 <= i < old.len() && (#[trigger] old[i]).0 == g;
        }
    }
    lemma_tail_contains(old, g);
    assert(gtin_in_range(g)) by {
        let w = choose|i: int| 0 <= i < old.len() && (#[trigger] old[i]).0 == g;
        assert(gtin_in_range(old[w].0));
    }
    if old[0].0 == g {
        assert(!map_contains(old.skip(1), g)) by {
            if map_contains(old.skip(1), g) {
                let w = choose|i: int|
                    0 <= i < old.skip(1).len() && (#[trigger] old.skip(1)[i]).0 == g;
                assert(old.skip(1)[w] == old[w + 1]);
                assert(old[0].0 != old[w + 1].0);
            }
        }
        lemma_del_count_zero(old.skip(1), new, g);
        let r = basic_of(old[0].0, old[0].1);
        assert(r.gtin == gtin_digits(g));
        lemma_count_cons(r, diff_del_spec(old.skip(1), new), gtin_digits(g));
    } else {
        assert(map_contains(old.skip(1), g)) by {
            let w = choose|i: int| 0 <= i < old.len() && (#[trigger] old[i]).0 == g;
            assert(w >= 1);
            assert(old.skip(1)[w - 1] == old[w]);
        }
        lemma_del_count_one(old.skip(1), new, g);
        if !map_contains(new, old[0].0) {
            let r = basic_of(old[0].0, old[0].1);
            assert(r.gtin != gtin_digits(g)) by {
                if r.gtin == gtin_digits(g) {
                    crate::gtin::lemma_gtin_digits_injective(old[0].0, g);
                }
            }
            lemma_count_cons(r, diff_del_spec(old.skip(1), new), gtin_digits(g));
        }
    }
}

proof fn lemma_new_absent(old: Seq<(u64, PackageInfoV)>, new: Seq<(u64, PackageInfoV)>, g: u64)
    requires
        keys_in_range(new),
        gtin_in_range(g),
        !map_contains(new, g),
    ensures
        forall|k: int|
            0 <= k < diff_new_spec(old, new).len() ==> (#[trigger] diff_new_spec(old, new)[
                k
            ]).gtin != gtin_digits(g),
    decreases new.len(),
{
    if new.len() > 0 {
        lemma_tail_contains(new, g);
        assert(!map_contains(new.skip(1), g));
        lemma_new_absent(old, new.skip(1), g);
        assert(new[0].0 != g) by {
            if new[0].0 == g {
                assert(map_contains(new, g));
            }
        }
        if !map_contains(old, new[0].0) {
            let r = basic_of(new[0].0, new[0].1);
            assert(r.gtin != gtin_digits(g)) by {
                if r.gtin == gtin_digits(g) {
                    crate::gtin::lemma_gtin_digits_injective(new[0].0, g);
                }
            }
            let whole = seq![r] + diff_new_spec(old, new.skip(1));
            assert forall|k: int|
                0 <= k < whole.len() implies (#[trigger] whole[k]).gtin != gtin_digits(g) by {
                if k == 0 {
                    assert(whole[0] == r);
                } else {
                    assert(whole[k] == diff_new_spec(old, new.skip(1))[k - 1]);
                }
            }
        }
    }
}

proof fn lemma_sl_absent(
    old: Seq<(u64, PackageInfoV)>,
    new: Seq<(u64, PackageInfoV)>,
    gained: bool,
    g: u64,
)
    requires
        keys_in_range(new),
        gtin_in_range(g),
        !map_contains(new, g),
    ensures
        forall|k: int|
            0 <= k < diff_sl_spec(old, new, gained).len() ==> (#[trigger] diff_sl_spec(
                old,
                new,
                gained,
            )[k]).gtin != gtin_digits(g),
    decreases new.len(),
{
    if new.len() > 0 {
        lemma_tail_contains(new, g);
        lemma_sl_absent(old, new.skip(1), gained, g);
        assert(new[0].0 != g) by {
            if new[0].0 == g {
                assert(map_contains(new, g));
            }
        }
        match map_get(old, new[0].0) {
            Some(oi) => {
                if oi.has_sl_entry != new[0].1.has_sl_entry && new[0].1.has_sl_entry == gained {
                    let r = sl_of(new[0].0, new[0].1);
                    assert(r.gtin != gtin_digits(g)) by {
                        if r.gtin == gtin_digits(g) {
                            crate::gtin::lemma_gtin_digits_injective(new[0].0, g);
                        }
                    }
                    let whole = seq![r] + diff_sl_spec(old, new.skip(1), gained);
                    assert forall|k: int|
                        0 <= k < whole.len() implies (#[trigger] whole[k]).gtin != gtin_digits(
                        g,
                    ) by {
                        if k == 0 {
                            assert(whole[0] == r);
                        } else {
                            assert(whole[k] == diff_sl_spec(old, new.skip(1), gained)[k - 1]);
                        }
                    }
                }
            },
            None => {
            },
        }
    }
}

proof fn lemma_name_absent(
    old: Seq<(u64, PackageInfoV)>,
    new: Seq<(u64, PackageInfoV)>,
    g: u64,
)
    requires
        keys_in_range(new),
        gtin_in_range(g),
        !map_contains(new, g),
    ensures
        forall|k: int|
            0 <= k < diff_name_spec(old, new).len() ==> (#[trigger] diff_name_spec(old, new)[
                k
            ]).gtin != gtin_digits(g),
    decreases new.len(),
{
    if new.len() > 0 {
        lemma_tail_contains(new, g);
        lemma_name_absent(old, new.skip(1), g);
        assert(new[0].0 != g) by {
            if new[0].0 == g {
                assert(map_contains(new, g));
            }
        }
        match map_get(old, new[0].0) {
            Some(oi) => {
                if oi.name != new[0].1.name {
                    let r = name_of(new[0].0, oi, new[0].1);
                    assert(r.gtin != gtin_digits(g)) by {
                        if r.gtin == gtin_digits(g) {
                            crate::gtin::lemma_gtin_digits_injective(new[0].0, g);
                        }
                    }
                    let whole = seq![r] + diff_name_spec(old, new.skip(1));
                    assert forall|k: int|
                        0 <= k < whole.len() implies (#[trigger] whole[k]).gtin != gtin_digits(
                        g,
                    ) by {
                        if k == 0 {
                            assert(whole[0] == r);
                        } else {
                            assert(whole[k] == diff_name_spec(old, new.skip(1))[k - 1]);
                        }
                    }
                }
            },
            None => {
            },
        }
    }
}

proof fn lemma_price_absent(
    old: Seq<(u64, PackageInfoV)>,
    new: Seq<(u64, PackageInfoV)>,
    t: PriceType,
    up: bool,
    g: u64,
)
    requires
        keys_in_range(new),
        gtin_in_range(g),
        !map_contains(new, g),
    ensures
        forall|k: int|
            0 <= k < diff_price_spec(old, new, t, up).len() ==> (#[trigger] diff_price_spec(
                old,
                new,
                t,
                up,
            )[k]).gtin != gtin_digits(g),
    decreases new.len(),
{
    if new.len() > 0 {
        lemma_tail_contains(new, g);
        lemma_price_absent(old, new.skip(1), t, up, g);
        assert(new[0].0 != g) by {
            if new[0].0 == g {
                assert(map_contains(new, g));
            }
        }
        match map_get(old, new[0].0) {
            Some(oi) => {
                if price_changed(oi, new[0].1, t) && (price_delta(oi, new[0].1, t) > 0) == up {
                    let r = price_change_of(new[0].0, oi, new[0].1, t);
                    assert(r.gtin != gtin_digits(g)) by {
                        if r.gtin == gtin_digits(g) {
                            crate::gtin::lemma_gtin_digits_injective(new[0].0, g);
                        }
                    }
                    let whole = seq![r] + diff_price_spec(old, new.skip(1), t, up);
                    assert forall|k: int|
                        0 <= k < whole.len() implies (#[trigger] whole[k]).gtin != gtin_digits(
                        g,
                    ) by {
                        if k == 0 {
                            assert(whole[0] == r);
                        } else {
                            assert(whole[k] == diff_price_spec(old, new.skip(1), t, up)[k - 1]);
                        }
                    }
                }
            },
            None => {
            },
        }
    }
}

/// A package present in the old snapshot and absent from the new one
/// appears in the deleted category exactly once, and in no other category.
pub proof fn lemma_deleted_exclusive(
    old: Seq<(u64, PackageInfoV)>,
    new: Seq<(u64, PackageInfoV)>,
    g: u64,
)
    requires
        distinct_keys(old),
        keys_in_range(old),
        keys_in_range(new),
        map_contains(old, g),
        !map_contains(new, g),
    ensures
        count_gtin(diff_del_spec(old, new), gtin_digits(g)) == 1,
        forall|k: int|
            0 <= k < diff_new_spec(old, new).len() ==> (#[trigger] diff_new_spec(old, new)[
                k
            ]).gtin != gtin_digits(g),
        forall|k: int|
            0 <= k < diff_sl_spec(old, new, true).len() ==> (#[trigger] diff_sl_spec(
                old,
                new,
                true,
            )[k]).gtin != gtin_digits(g),
        forall|k: int|
            0 <= k < diff_sl_spec(old, new, false).len() ==> (#[trigger] diff_sl_spec(
                old,
                new,
                false,
            )[k]).gtin != gtin_digits(g),
        forall|k: int|
            0 <= k < diff_name_spec(old, new).len() ==> (#[trigger] diff_name_spec(old, new)[
                k
            ]).gtin != gtin_digits(g),
        forall|k: int|
            0 <= k < diff_price_spec(old, new, PriceType::Retail, true).len() ==> (
            #[trigger] diff_price_spec(old, new, PriceType::Retail, true)[k]).gtin
                != gtin_digits(g),
        forall|k: int|
            0 <= k < diff_price_spec(old, new, PriceType::Retail, false).len() ==> (
            #[trigger] diff_price_spec(old, new, PriceType::Retail, false)[k]).gtin
                != gtin_digits(g),
        forall|k: int|
            0 <= k < diff_price_spec(old, new, PriceType::Exfactory, true).len() ==> (
            #[trigger] diff_price_spec(old, new, PriceType::Exfactory, true)[k]).gtin
                != gtin_digits(g),
        forall|k: int|
            0 <= k < diff_price_spec(old, new, PriceType::Exfactory, false).len() ==> (
            #[trigger] diff_price_spec(old, new, PriceType::Exfactory, false)[k]).gtin
                != gtin_digits(g),
{
    assert(gtin_in_range(g)) by {
        let w = choose|i: int| 0 <= i < old.len() && (#[trigger] old[i]).0 == g;
        assert(gtin_in_range(old[w].0));
    }
    lemma_del_count_one(old, new, g);
    lemma_new_absent(old, new, g);
    lemma_sl_absent(old, new, true, g);
    lemma_sl_absent(old, new, false, g);
    lemma_name_absent(old, new, g);
    lemma_price_absent(old, new, PriceType::Retail, true, g);
    lemma_price_absent(old, new, PriceType::Retail, false, g);
    lemma_price_absent(old, new, PriceType::Exfactory, true, g);
    lemma_price_absent(old, new, PriceType::Exfactory, false, g);
}

/// A price movement within the epsilon of one thousandth produces no
/// price-change record for that package and axis, in either direction.
pub proof fn lemma_small_delta_no_record(
    old: Seq<(u64, PackageInfoV)>,
    new: Seq<(u64, PackageInfoV)>,
    g: u64,
    t: PriceType,
)
    requires
        distinct_keys(new),
        keys_in_range(new),
        map_get(old, g).is_some(),
        map_get(new, g).is_some(),
        !price_changed(map_get(old, g).unwrap(), map_get(new, g).unwrap(), t),
    ensures
        forall|k: int|
            0 <= k < diff_price_spec(old, new, t, true).len() ==> (#[trigger] diff_price_spec(
                old,
                new,
                t,
                true,
            )[k]).gtin != gtin_digits(g),
        forall|k: int|
            0 <= k < diff_price_spec(old, new, t, false).len() ==> (#[trigger] diff_price_spec(
                old,
                new,
                t,
                false,
            )[k]).gtin != gtin_digits(g),
    decreases new.len(),
{
    crate::model::lemma_first_key_index(new, g);
    assert(map_contains(new, g));
    assert(gtin_in_range(g)) by {
        let w = choose|i: int| 0 <= i < new.len() && (#[trigger] new[i]).0 == g;
        assert(gtin_in_range(new[w].0));
    }
    lemma_small_delta_no_record_dir(old, new, g, t, true);
    lemma_small_delta_no_record_dir(old, new, g, t, false);
}

proof fn lemma_small_delta_no_record_dir(
    old: Seq<(u64, PackageInfoV)>,
    new: Seq<(u64, PackageInfoV)>,
    g: u64,
    t: PriceType,
    up: bool,
)
    requires
        distinct_keys(new),
        keys_in_range(new),
        gtin_in_range(g),
        map_get(old, g).is_some(),
        map_get(new, g).is_some(),
        !price_changed(map_get(old, g).unwrap(), map_get(new, g).unwrap(), t),
    ensures
        forall|k: int|
            0 <= k < diff_price_spec(old, new, t, up).len() ==> (#[trigger] diff_price_spec(
                old,
                new,
                t,
                up,
            )[k]).gtin != gtin_digits(g),
    decreases new.len(),
{
    crate::model::lemma_first_key_index(new, g);
    if new.len() > 0 {
        lemma_tail_contains(new, g);
        if new[0].0 == g {
            assert(map_get(new, g) == Some(new[0].1));
            assert(!map_contains(new.skip(1), g)) by {
                if map_contains(new.skip(1), g) {
                    let w = choose|i: int|
                        0 <= i < new.skip(1).len() && (#[trigger] new.skip(1)[i]).0 == g;
                    assert(new.skip(1)[w] == new[w + 1]);
                    assert(new[0].0 != new[w + 1].0);
                }
            }
            lemma_price_absent(old, new.skip(1), t, up, g);
            match map_get(old, new[0].0) {
                Some(oi) => {
                    assert(map_get(old, g) == Some(oi));
                    assert(!price_changed(oi, new[0].1, t));
                },
                None => {
                },
            }
        } else {
            assert(map_get(new.skip(1), g) == map_get(new, g));
            lemma_small_delta_no_record_dir(old, new.skip(1), g, t, up);
            match map_get(old, new[0].0) {
                Some(oi) => {
                    if price_changed(oi, new[0].1, t) && (price_delta(oi, new[0].1, t) > 0)
                        == up {
                        let r = price_change_of(new[0].0, oi, new[0].1, t);
                        assert(r.gtin != gtin_digits(g)) by {
                            if r.gtin == gtin_digits(g) {
                                crate::gtin::lemma_gtin_digits_injective(new[0].0, g);
                            }
                        }
                        let whole = seq![r] + diff_price_spec(old, new.skip(1), t, up);
                        assert forall|k: int|
                            0 <= k < whole.len() implies (#[trigger] whole[k]).gtin
                            != gtin_digits(g) by {
                            if k == 0 {
                                assert(whole[0] == r);
                            } else {
                                assert(whole[k] == diff_price_spec(old, new.skip(1), t, up)[
                                    k - 1
                                ]);
                            }
                        }
                    }
                },
                None => {
                },
            }
        }
    }
}

/// The nine output categories.
#[derive(Clone, Copy, PartialEq, Eq, Structural, Debug)]
pub enum Category {
    New,
    Del,
    SlEntry,
    SlEntryDelete,
    NameBase,
    RetailUp,
    RetailDown,
    ExfactoryUp,
    ExfactoryDown,
}

/// The category a selector string names, with its accepted aliases; an
/// unrecognized selector names none and is a user error.
pub open spec fn category_of_name(s: Seq<char>) -> Option<Category> {
    if s == "new"@ {
        Some(Category::New)
    } else if s == "del"@ || s == "delete"@ {
        Some(Category::Del)
    } else if s == "sl_entry"@ {
        Some(Category::SlEntry)
    } else if s == "sl_entry_delete"@ {
        Some(Category::SlEntryDelete)
    } else if s == "name"@ || s == "name_base"@ || s == "productname"@ {
        Some(Category::NameBase)
    } else if s == "retail_up"@ || s == "price_rise_retail"@ {
        Some(Category::RetailUp)
    } else if s == "retail_down"@ || s == "price_cut_retail"@ {
        Some(Category::RetailDown)
    } else if s == "exfactory_up"@ || s == "price_rise_exfactory"@ {
        Some(Category::ExfactoryUp)
    } else if s == "exfactory_down"@ || s == "price_cut_exfactory"@ {
        Some(Category::ExfactoryDown)
    } else {
        None
    }
}

/// Resolve a category selector; `None` exactly on unrecognized selectors.
pub fn category_by_name(s: &str) -> (r: Option<Category>)
    ensures
        r == category_of_name(s@),
{
    if str_eq(s, "new") {
        Some(Category::New)
    } else if str_eq(s, "del") || str_eq(s, "delete") {
        Some(Category::Del)
    } else if str_eq(s, "sl_entry") {
        Some(Category::SlEntry)
    } else if str_eq(s, "sl_entry_delete") {
        Some(Category::SlEntryDelete)
    } else if str_eq(s, "name") || str_eq(s, "name_base") || str_eq(s, "productname") {
        Some(Category::NameBase)
    } else if str_eq(s, "retail_up") || str_eq(s, "price_rise_retail") {
        Some(Category::RetailUp)
    } else if str_eq(s, "retail_down") || str_eq(s, "price_cut_retail") {
        Some(Category::RetailDown)
    } else if str_eq(s, "exfactory_up") || str_eq(s, "price_rise_exfactory") {
        Some(Category::ExfactoryUp)
    } else if str_eq(s, "exfactory_down") || str_eq(s, "price_cut_exfactory") {
        Some(Category::ExfactoryDown)
    } else {
        None
    }
}

/// The flag codes a record of the category carries.
pub fn category_flags(c: Category) -> (v: Vec<u8>)
    ensures
        c == Category::New ==> v@ == seq![crate::numeric_flags::NEW],
        c == Category::Del ==> v@ == seq![crate::numeric_flags::DELETE],
        c == Category::SlEntry ==> v@ == seq![crate::numeric_flags::SL_ENTRY],
        c == Category::SlEntryDelete ==> v@ == seq![crate::numeric_flags::SL_ENTRY_DELETE],
        c == Category::NameBase ==> v@ == seq![crate::numeric_flags::NAME_BASE],
        c == Category::RetailUp || c == Category::ExfactoryUp ==> v@ == seq![
            crate::numeric_flags::PRICE,
            crate::numeric_flags::PRICE_RISE,
        ],
        c == Category::RetailDown || c == Category::ExfactoryDown ==> v@ == seq![
            crate::numeric_flags::PRICE,
            crate::numeric_flags::PRICE_CUT,
        ],
{
    let mut v: Vec<u8> = Vec::new();
    match c {
        Category::New => {
            v.push(crate::numeric_flags::NEW);
        },
        Category::Del => {
            v.push(crate::numeric_flags::DELETE);
        },
        Category::SlEntry => {
            v.push(crate::numeric_flags::SL_ENTRY);
        },
        Category::SlEntryDelete => {
            v.push(crate::numeric_flags::SL_ENTRY_DELETE);
        },
        Category::NameBase => {
            v.push(crate::numeric_flags::NAME_BASE);
        },
        Category::RetailUp => {
            v.push(crate::numeric_flags::PRICE);
            v.push(crate::numeric_flags::PRICE_RISE);
        },
        Category::RetailDown => {
            v.push(crate::numeric_flags::PRICE);
            v.push(crate::numeric_flags::PRICE_CUT);
        },
        Category::ExfactoryUp => {
            v.push(crate::numeric_flags::PRICE);
            v.push(crate::numeric_flags::PRICE_RISE);
        },
        Category::ExfactoryDown => {
            v.push(crate::numeric_flags::PRICE);
            v.push(crate::numeric_flags::PRICE_CUT);
        },
    }
    v
}

pub open spec fn basic_gtins(s: Seq<BasicChangeV>) -> Seq<Seq<char>> {
    s.map_values(|r: BasicChangeV| r.gtin)
}

pub open spec fn sl_gtins(s: Seq<SlChangeV>) -> Seq<Seq<char>> {
    s.map_values(|r: SlChangeV| r.gtin)
}

pub open spec fn name_gtins(s: Seq<NameChangeV>) -> Seq<Seq<char>> {
    s.map_values(|r: NameChangeV| r.gtin)
}

pub open spec fn price_gtins(s: Seq<PriceChangeV>) -> Seq<Seq<char>> {
    s.map_values(|r: PriceChangeV| r.gtin)
}

fn gtins_of_basic(v: &Vec<BasicChange>) -> (out: Vec<String>)
    ensures
        out.deep_view() == basic_gtins(v.deep_view()),
{
    let n = v.len();
    let mut out: Vec<String> = Vec::new();
    let mut i: usize = 0;
    while i < n
        invariant
            i <= n,
            n == v@.len(),
            out.deep_view() == basic_gtins(v.deep_view().subrange(0, i as int)),
        decreases n - i,
    {
        let ghost pre = out.deep_view();
        out.push(v[i].gtin.clone());
        proof {
            assert(forall|k: int|
                0 <= k < out@.len() ==> #[trigger] out.deep_view()[k] == out@[k]@);
            assert(forall|k: int|
                0 <= k < v@.len() ==> #[trigger] v.deep_view()[k] == v@[k]@);
            assert(out.deep_view() =~= pre.push(v@[i as int]@.gtin));
            assert(v.deep_view().subrange(0, i + 1).drop_last() =~= v.deep_view().subrange(
                0,
                i as int,
            ));
            assert(basic_gtins(v.deep_view().subrange(0, i + 1)) =~= basic_gtins(
                v.deep_view().subrange(0, i as int),
            ).push(v@[i as int]@.gtin));
            assert(out.deep_view() =~= basic_gtins(v.deep_view().subrange(0, i + 1)));
        }
        i = i + 1;
    }
    proof {
        assert(v.deep_view().subrange(0, n as int) =~= v.deep_view());
    }
    out
}

fn gtins_of_sl(v: &Vec<SlChange>) -> (out: Vec<String>)
    ensures
        out.deep_view() == sl_gtins(v.deep_view()),
{
    let n = v.len();
    let mut out: Vec<String> = Vec::new();
    let mut i: usize = 0;
    while i < n
        invariant
            i <= n,
            n == v@.len(),
            out.deep_view() == sl_gtins(v.deep_view().subrange(0, i as int)),
        decreases n - i,
    {
        let ghost pre = out.deep_view();
        out.push(v[i].gtin.clone());
        proof {
            assert(forall|k: int|
                0 <= k < out@.len() ==> #[trigger] out.deep_view()[k] == out@[k]@);
            assert(forall|k: int|
                0 <= k < v@.len() ==> #[trigger] v.deep_view()[k] == v@[k]@);
            assert(out.deep_view() =~= pre.push(v@[i as int]@.gtin));
            assert(v.deep_view().subrange(0, i + 1).drop_last() =~= v.deep_view().subrange(
                0,
                i as int,
            ));
            assert(sl_gtins(v.deep_view().subrange(0, i + 1)) =~= sl_gtins(
                v.deep_view().subrange(0, i as int),
            ).push(v@[i as int]@.gtin));
            assert(out.deep_view() =~= sl_gtins(v.deep_view().subrange(0, i + 1)));
        }
        i = i + 1;
    }
    proof {
        assert(v.deep_view().subrange(0, n as int) =~= v.deep_view());
    }
    out
}

fn gtins_of_name(v: &Vec<NameChange>) -> (out: Vec<String>)
    ensures
        out.deep_view() == name_gtins(v.deep_view()),
{
    let n = v.len();
    let mut out: Vec<String> = Vec::new();
    let mut i: usize = 0;
    while i < n
        invariant
            i <= n,
            n == v@.len(),
            out.deep_view() == name_gtins(v.deep_view().subrange(0, i as int)),
        decreases n - i,
    {
        let ghost pre = out.deep_view();
        out.push(v[i].gtin.clone());
        proof {
            assert(forall|k: int|
                0 <= k < out@.len() ==> #[trigger] out.deep_view()[k] == out@[k]@);
            assert(forall|k: int|
                0 <= k < v@.len() ==> #[trigger] v.deep_view()[k] == v@[k]@);
            assert(out.deep_view() =~= pre.push(v@[i as int]@.gtin));
            assert(v.deep_view().subrange(0, i + 1).drop_last() =~= v.deep_view().subrange(
                0,
                i as int,
            ));
            assert(name_gtins(v.deep_view().subrange(0, i + 1)) =~= name_gtins(
                v.deep_view().subrange(0, i as int),
            ).push(v@[i as int]@.gtin));
            assert(out.deep_view() =~= name_gtins(v.deep_view().subrange(0, i + 1)));
        }
        i = i + 1;
    }
    proof {
        assert(v.deep_view().subrange(0, n as int) =~= v.deep_view());
    }
    out
}

fn gtins_of_price(v: &Vec<PriceChange>) -> (out: Vec<String>)
    ensures
        out.deep_view() == price_gtins(v.deep_view()),
{
    let n = v.len();
    let mut out: Vec<String> = Vec::new();
    let mut i: usize = 0;
    while i < n
        invariant
            i <= n,
            n == v@.len(),
            out.deep_view() == price_gtins(v.deep_view().subrange(0, i as int)),
        decreases n - i,
    {
        let ghost pre = out.deep_view();
        out.push(v[i].gtin.clone());
        proof {
            assert(forall|k: int|
                0 <= k < out@.len() ==> #[trigger] out.deep_view()[k] == out@[k]@);
            assert(forall|k: int|
                0 <= k < v@.len() ==> #[trigger] v.deep_view()[k] == v@[k]@);
            assert(out.deep_view() =~= pre.push(v@[i as int]@.gtin));
            assert(v.deep_view().subrange(0, i + 1).drop_last() =~= v.deep_view().subrange(
                0,
                i as int,
            ));
            assert(price_gtins(v.deep_view().subrange(0, i + 1)) =~= price_gtins(
                v.deep_view().subrange(0, i as int),
            ).push(v@[i as int]@.gtin));
            assert(out.deep_view() =~= price_gtins(v.deep_view().subrange(0, i + 1)));
        }
        i = i + 1;
    }
    proof {
        assert(v.deep_view().subrange(0, n as int) =~= v.deep_view());
    }
    out
}

/// The identifiers of one category's records, in order, for the
/// single-category output mode.
pub fn category_gtins(d: &DiffResult, c: Category) -> (out: Vec<String>)
    ensures
        c == Category::New ==> out.deep_view() == basic_gtins(d.new.deep_view()),
        c == Category::Del ==> out.deep_view() == basic_gtins(d.del.deep_view()),
        c == Category::SlEntry ==> out.deep_view() == sl_gtins(d.sl_entry.deep_view()),
        c == Category::SlEntryDelete ==> out.deep_view() == sl_gtins(
            d.sl_entry_delete.deep_view(),
        ),
        c == Category::NameBase ==> out.deep_view() == name_gtins(d.name_base.deep_view()),
        c == Category::RetailUp ==> out.deep_view() == price_gtins(d.retail_up.deep_view()),
        c == Category::RetailDown ==> out.deep_view() == price_gtins(d.retail_down.deep_view()),
        c == Category::ExfactoryUp ==> out.deep_view() == price_gtins(
            d.exfactory_up.deep_view(),
        ),
        c == Category::ExfactoryDown ==> out.deep_view() == price_gtins(
            d.exfactory_down.deep_view(),
        ),
{
    match c {
        Category::New => gtins_of_basic(&d.new),
        Category::Del => gtins_of_basic(&d.del),
        Category::SlEntry => gtins_of_sl(&d.sl_entry),
        Category::SlEntryDelete => gtins_of_sl(&d.sl_entry_delete),
        Category::NameBase => gtins_of_name(&d.name_base),
        Category::RetailUp => gtins_of_price(&d.retail_up),
        Category::RetailDown => gtins_of_price(&d.retail_down),
        Category::ExfactoryUp => gtins_of_price(&d.exfactory_up),
        Category::ExfactoryDown => gtins_of_price(&d.exfactory_down),
    }
}

/// Resolve and classify two loaded snapshots in one step: each side is
/// resolved as of its own effective date, then every category is computed.
pub fn diff_snapshots(
    old_bundles: &Vec<crate::model::Bundle>,
    new_bundles: &Vec<crate::model::Bundle>,
    old_dt: &crate::dates::DateTuple,
    new_dt: &crate::dates::DateTuple,
) -> (r: DiffResult)
    requires
        forall|i: int|
            0 <= i < old_bundles@.len() ==> crate::loader::bundle_amounts_bounded(
                (#[trigger] old_bundles@[i])@,
            ),
        forall|i: int|
            0 <= i < new_bundles@.len() ==> crate::loader::bundle_amounts_bounded(
                (#[trigger] new_bundles@[i])@,
            ),
    ensures
        ({
            let om = crate::extract::process_bundles_spec(old_bundles.deep_view(), *old_dt);
            let nm = crate::extract::process_bundles_spec(new_bundles.deep_view(), *new_dt);
            &&& r.new.deep_view() == diff_new_spec(om, nm)
            &&& r.del.deep_view() == diff_del_spec(om, nm)
            &&& r.sl_entry.deep_view() == diff_sl_spec(om, nm, true)
            &&& r.sl_entry_delete.deep_view() == diff_sl_spec(om, nm, false)
            &&& r.name_base.deep_view() == diff_name_spec(om, nm)
            &&& r.retail_up.deep_view() == diff_price_spec(om, nm, PriceType::Retail, true)
            &&& r.retail_down.deep_view() == diff_price_spec(om, nm, PriceType::Retail, false)
            &&& r.exfactory_up.deep_view() == diff_price_spec(om, nm, PriceType::Exfactory, true)
            &&& r.exfactory_down.deep_view() == diff_price_spec(
                om,
                nm,
                PriceType::Exfactory,
                false,
            )
        }),
{
    let old_map = crate::extract::process_bundles(old_bundles, old_dt);
    let new_map = crate::extract::process_bundles(new_bundles, new_dt);
    compute_diff(&old_map, &new_map)
}

} // verus!
