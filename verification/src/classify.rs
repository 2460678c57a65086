//! Feature classification: decoding the source's free-text road class and
//! form attributes into the closed enums of the data model.
//!
//! Unrecognized strings are a `MalformedInput` error: silently
//! mis-classifying road importance would corrupt rendering order, so
//! ingestion fails fast instead.

use vstd::prelude::*;

use crate::data::WayClass;
use crate::data::WayForm;
use crate::errors::GeoError;

verus! {

use vstd::string::StringSliceAdditionalSpecFns;

/// Compare two strings for equality of their character sequences.
pub fn str_eq(a: &str, b: &str) -> (r: bool)
    ensures
        r == (a@ == b@),
{
    broadcast use vstd::utf8::encode_utf8_decode_utf8;

    let ab = a.as_bytes();
    let bb = b.as_bytes();
    if ab.len() != bb.len() {
        assert(a@ != b@) by {
            if a@ == b@ {
                assert(ab@ == bb@);
            }
        }
        return false;
    }
    let n = ab.len();
    let mut i: usize = 0;
    while i < n
        invariant
            n == ab.len() == bb.len(),
            ab@ == a.spec_bytes(),
            bb@ == b.spec_bytes(),
            i <= n,
            forall|j: int| 0 <= j < i ==> ab@[j] == bb@[j],
        decreases n - i,
    {
        if ab[i] != bb[i] {
            assert(a@ != b@) by {
                if a@ == b@ {
                    assert(ab@ == bb@);
                }
            }
            return false;
        }
        i += 1;
    }
    assert(ab@ =~= bb@);
    assert(vstd::utf8::decode_utf8(vstd::utf8::encode_utf8(a@)) == a@);
    assert(vstd::utf8::decode_utf8(vstd::utf8::encode_utf8(b@)) == b@);
    true
}

/// The classification table for road classes, over character sequences.
pub open spec fn class_for(s: Seq<char>) -> Option<WayClass> {
    if s == "A Road"@ {
        Some(WayClass::ARoad)
    } else if s == "B Road"@ {
        Some(WayClass::BRoad)
    } else if s == "Motorway"@ {
        Some(WayClass::Motorway)
    } else if s == "Unclassified"@ {
        Some(WayClass::Unclassified)
    } else if s == "Not Classified"@ {
        Some(WayClass::Unclassified)
    } else if s == "Classified Unnumbered"@ {
        Some(WayClass::Unclassified)
    } else if s == "Unknown"@ {
        Some(WayClass::Unknown)
    } else {
        None
    }
}

/// The classification table for road forms, over character sequences.
pub open spec fn form_for(s: Seq<char>) -> Option<WayForm> {
    if s == "Single Carriageway"@ {
        Some(WayForm::SingleCarriageway)
    } else if s == "Shared Use Carriageway"@ {
        Some(WayForm::SingleCarriageway)
    } else if s == "Dual Carriageway"@ {
        Some(WayForm::DualCarriageway)
    } else if s == "Collapsed Dual Carriageway"@ {
        Some(WayForm::CollapsedDualCarriageway)
    } else if s == "Slip Road"@ {
        Some(WayForm::SlipRoad)
    } else if s == "Roundabout"@ {
        Some(WayForm::Roundabout)
    } else if s == "Guided Busway"@ {
        Some(WayForm::TransitWay)
    } else {
        None
    }
}

/// Decode a road classification attribute, failing fast on an
/// unrecognized value.
pub fn way_class_of(s: &str) -> (r: Result<WayClass, GeoError>)
    ensures
        match r {
            Ok(c) => class_for(s@) == Some(c),
            Err(e) => class_for(s@) is None && e == GeoError::MalformedInput,
        },
{
    if str_eq(s, "A Road") {
        Ok(WayClass::ARoad)
    } else if str_eq(s, "B Road") {
        Ok(WayClass::BRoad)
    } else if str_eq(s, "Motorway") {
        Ok(WayClass::Motorway)
    } else if str_eq(s, "Unclassified") {
        Ok(WayClass::Unclassified)
    } else if str_eq(s, "Not Classified") {
        Ok(WayClass::Unclassified)
    } else if str_eq(s, "Classified Unnumbered") {
        Ok(WayClass::Unclassified)
    } else if str_eq(s, "Unknown") {
        Ok(WayClass::Unknown)
    } else {
        Err(GeoError::MalformedInput)
    }
}

/// Decode a road form attribute, failing fast on an unrecognized value.
pub fn way_form_of(s: &str) -> (r: Result<WayForm, GeoError>)
    ensures
        match r {
            Ok(f) => form_for(s@) == Some(f),
            Err(e) => form_for(s@) is None && e == GeoError::MalformedInput,
        },
{
    if str_eq(s, "Single Carriageway") {
        Ok(WayForm::SingleCarriageway)
    } else if str_eq(s, "Shared Use Carriageway") {
        Ok(WayForm::SingleCarriageway)
    } else if str_eq(s, "Dual Carriageway") {
        Ok(WayForm::DualCarriageway)
    } else if str_eq(s, "Collapsed Dual Carriageway") {
        Ok(WayForm::CollapsedDualCarriageway)
    } else if str_eq(s, "Slip Road") {
        Ok(WayForm::SlipRoad)
    } else if str_eq(s, "Roundabout") {
        Ok(WayForm::Roundabout)
    } else if str_eq(s, "Guided Busway") {
        Ok(WayForm::TransitWay)
    } else {
        Err(GeoError::MalformedInput)
    }
}

} // verus!
