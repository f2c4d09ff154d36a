//! Integer features of a transaction: the merchant category's risk and
//! whether the merchant is one the customer knows.
use vstd::prelude::*;
use vstd::string::StringSliceAdditionalSpecFns;
use crate::knn::FRAUD_LABEL;

verus! {

/// Risk of a merchant category code in hundredths: 15 for 5411, 30 for
/// 5812, 20 for 5912, 45 for 5944, 80 for 7801, 75 for 7802, 85 for 7995,
/// 35 for 4511, 25 for 5311, 50 for 5999 and for any other code.
pub open spec fn mcc_risk_hundredths(mcc: Seq<char>) -> u32 {
    if mcc == "5411"@ { 15 }
    else if mcc == "5812"@ { 30 }
    else if mcc == "5912"@ { 20 }
    else if mcc == "5944"@ { 45 }
    else if mcc == "7801"@ { 80 }
    else if mcc == "7802"@ { 75 }
    else if mcc == "7995"@ { 85 }
    else if mcc == "4511"@ { 35 }
    else if mcc == "5311"@ { 25 }
    else if mcc == "5999"@ { 50 }
    else { 50 }
}

/// Whether two strings are equal, by their UTF-8 bytes.
pub fn str_eq(a: &str, b: &str) -> (r: bool)
    ensures
        r == (a@ == b@),
{
    let x = a.as_bytes();
    let y = b.as_bytes();
    proof {
        vstd::utf8::encode_utf8_decode_utf8(a@);
        vstd::utf8::encode_utf8_decode_utf8(b@);
    }
    if x.len() != y.len() {
        return false;
    }
    let mut i: usize = 0;
    while i < x.len()
        invariant
            x@ == a.spec_bytes(),
            y@ == b.spec_bytes(),
            x@.len() == y@.len(),
            i <= x@.len(),
            forall|k: int| 0 <= k < i ==> x@[k] == y@[k],
        decreases x@.len() - i,
    {
        if x[i] != y[i] {
            assert(x@[i as int] != y@[i as int]);
            return false;
        }
        i = i + 1;
    }
    proof {
        assert(x@ =~= y@);
    }
    true
}

/// Risk of a merchant category code, in hundredths.
pub fn mcc_risk(mcc: &str) -> (r: u32)
    ensures
        r == mcc_risk_hundredths(mcc@),
{
    if str_eq(mcc, "5411") { 15 }
    else if str_eq(mcc, "5812") { 30 }
    else if str_eq(mcc, "5912") { 20 }
    else if str_eq(mcc, "5944") { 45 }
    else if str_eq(mcc, "7801") { 80 }
    else if str_eq(mcc, "7802") { 75 }
    else if str_eq(mcc, "7995") { 85 }
    else if str_eq(mcc, "4511") { 35 }
    else if str_eq(mcc, "5311") { 25 }
    else if str_eq(mcc, "5999") { 50 }
    else { 50 }
}

/// Whether the merchant is among the customer's known merchants.
pub fn is_known_merchant(merchant_id: &str, known_merchants: &[&str]) -> (r: bool)
    ensures
        r == exists|i: int| 0 <= i < known_merchants@.len() && (#[trigger] known_merchants@[i])@
            == merchant_id@,
{
    let mut i: usize = 0;
    while i < known_merchants.len()
        invariant
            i <= known_merchants@.len(),
            forall|k: int| 0 <= k < i ==> (#[trigger] known_merchants@[k])@ != merchant_id@,
        decreases known_merchants@.len() - i,
    {
        if str_eq(known_merchants[i], merchant_id) {
            return true;
        }
        i = i + 1;
    }
    false
}

/// The label of a reference transaction by its class name: `FRAUD_LABEL`
/// for "fraud", 0 for any other.
pub fn reference_label(class: &str) -> (r: u8)
    ensures
        r == (if class@ == "fraud"@ {
            FRAUD_LABEL
        } else {
            0u8
        }),
{
    if str_eq(class, "fraud") {
        FRAUD_LABEL
    } else {
        0
    }
}

} // verus!
