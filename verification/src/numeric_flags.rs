//! The fixed numeric taxonomy of change categories, shared with a
//! downstream consumer: codes 1 to 16, never reordered or redefined.  Some
//! codes belong to a second data source and are never emitted by the diff
//! engine itself.

use vstd::prelude::*;
use vstd::string::StringExecFns;

verus! {

pub const NEW: u8 = 1;

pub const SL_ENTRY_DELETE: u8 = 2;

pub const NAME_BASE: u8 = 3;

pub const ADDRESS: u8 = 4;

pub const IKSCAT: u8 = 5;

pub const COMPOSITION: u8 = 6;

pub const INDICATION: u8 = 7;

pub const SEQUENCE: u8 = 8;

pub const EXPIRY_DATE: u8 = 9;

pub const SL_ENTRY: u8 = 10;

pub const PRICE: u8 = 11;

pub const COMMENT: u8 = 12;

pub const PRICE_RISE: u8 = 13;

pub const DELETE: u8 = 14;

pub const PRICE_CUT: u8 = 15;

pub const NOT_SPECIFIED: u8 = 16;

/// The category name each code stands for; codes outside 1 to 16 have none.
pub open spec fn legend_spec(code: u8) -> Option<Seq<char>> {
    if code == 1 {
        Some("new"@)
    } else if code == 2 {
        Some("sl_entry_delete"@)
    } else if code == 3 {
        Some("name_base"@)
    } else if code == 4 {
        Some("address"@)
    } else if code == 5 {
        Some("ikscat"@)
    } else if code == 6 {
        Some("composition"@)
    } else if code == 7 {
        Some("indication"@)
    } else if code == 8 {
        Some("sequence"@)
    } else if code == 9 {
        Some("expiry_date"@)
    } else if code == 10 {
        Some("sl_entry"@)
    } else if code == 11 {
        Some("price"@)
    } else if code == 12 {
        Some("comment"@)
    } else if code == 13 {
        Some("price_rise"@)
    } else if code == 14 {
        Some("delete"@)
    } else if code == 15 {
        Some("price_cut"@)
    } else if code == 16 {
        Some("not_specified"@)
    } else {
        None
    }
}

/// The category name of a numeric flag.
pub fn flag_label(code: u8) -> (r: Option<String>)
    ensures
        r matches Some(s) ==> legend_spec(code) == Some(s@),
        r.is_none() ==> legend_spec(code).is_none(),
{
    if code == 1 {
        Some(String::from_str("new"))
    } else if code == 2 {
        Some(String::from_str("sl_entry_delete"))
    } else if code == 3 {
        Some(String::from_str("name_base"))
    } else if code == 4 {
        Some(String::from_str("address"))
    } else if code == 5 {
        Some(String::from_str("ikscat"))
    } else if code == 6 {
        Some(String::from_str("composition"))
    } else if code == 7 {
        Some(String::from_str("indication"))
    } else if code == 8 {
        Some(String::from_str("sequence"))
    } else if code == 9 {
        Some(String::from_str("expiry_date"))
    } else if code == 10 {
        Some(String::from_str("sl_entry"))
    } else if code == 11 {
        Some(String::from_str("price"))
    } else if code == 12 {
        Some(String::from_str("comment"))
    } else if code == 13 {
        Some(String::from_str("price_rise"))
    } else if code == 14 {
        Some(String::from_str("delete"))
    } else if code == 15 {
        Some(String::from_str("price_cut"))
    } else if code == 16 {
        Some(String::from_str("not_specified"))
    } else {
        None
    }
}

} // verus!
