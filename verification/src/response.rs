//! The JSON answer of the scoring endpoint.
use vstd::prelude::*;
use vstd::string::StringSliceAdditionalSpecFns;
use crate::knn::{FraudScore, K, Neighbor, fraud_count, lemma_fraud_count_bound, score_of};

verus! {

/// The bytes of an ASCII text.
pub open spec fn ascii_bytes(s: Seq<char>) -> Seq<u8> {
    s.map_values(|c: char| c as u8)
}

/// A transaction is approved when its fraud score is below 0.6.
pub open spec fn is_approved(score: FraudScore) -> bool {
    5 * score.num < 3 * score.den
}

/// The score times ten, rounded half up: `floor(10 * num / den + 1/2)`.
pub open spec fn score_tenths(score: FraudScore) -> int {
    (20 * score.num + score.den) / (2 * score.den)
}

/// The score as printed: one of `0.0`, `0.2`, `0.4`, `0.6`, `0.8` by its
/// tenths, `1.0` for any other number of tenths.
pub open spec fn score_text(tenths: int) -> Seq<char> {
    if tenths == 0 {
        "0.0"@
    } else if tenths == 2 {
        "0.2"@
    } else if tenths == 4 {
        "0.4"@
    } else if tenths == 6 {
        "0.6"@
    } else if tenths == 8 {
        "0.8"@
    } else {
        "1.0"@
    }
}

/// The JSON answer for a score: `{"approved":<bool>,"fraud_score":<text>}`.
pub open spec fn score_json(score: FraudScore) -> Seq<char> {
    "{\"approved\":"@ + (if is_approved(score) {
        "true"@
    } else {
        "false"@
    }) + ",\"fraud_score\":"@ + score_text(score_tenths(score)) + "}"@
}

/// A fraction from 0 to 1 with a denominator small enough for the
/// arithmetic below.
pub open spec fn score_in_range(score: FraudScore) -> bool {
    0 < score.den <= 0x100_0000 && score.num <= score.den
}

/// Appends the bytes of the ASCII literal `s`.
fn push_ascii(out: &mut Vec<u8>, s: &str)
    requires
        vstd::string::is_ascii(s),
    ensures
        final(out)@ == old(out)@ + ascii_bytes(s@),
{
    proof {
        vstd::string::is_ascii_spec_bytes(s);
    }
    let b = s.as_bytes();
    let ghost o = out@;
    out.extend_from_slice(b);
    proof {
        assert(out@ =~= o + ascii_bytes(s@));
    }
}

/// The score's text, by its tenths.
fn score_literal(tenths: usize) -> (r: &'static str)
    ensures
        r@ == score_text(tenths as int),
        vstd::string::is_ascii(r),
{
    proof {
        reveal_strlit("0.0");
        reveal_strlit("0.2");
        reveal_strlit("0.4");
        reveal_strlit("0.6");
        reveal_strlit("0.8");
        reveal_strlit("1.0");
    }
    if tenths == 0 {
        "0.0"
    } else if tenths == 2 {
        "0.2"
    } else if tenths == 4 {
        "0.4"
    } else if tenths == 6 {
        "0.6"
    } else if tenths == 8 {
        "0.8"
    } else {
        "1.0"
    }
}

/// Renders the JSON answer of the scoring endpoint for a fraud score.
pub fn render_score(score: FraudScore) -> (r: Vec<u8>)
    requires
        score_in_range(score),
    ensures
        r@ == ascii_bytes(score_json(score)),
{
    let approved = 5 * score.num < 3 * score.den;
    let tenths = (20 * score.num + score.den) / (2 * score.den);
    proof {
        reveal_strlit("{\"approved\":");
        reveal_strlit("true");
        reveal_strlit("false");
        reveal_strlit(",\"fraud_score\":");
        reveal_strlit("}");
    }
    let mut out: Vec<u8> = Vec::new();
    push_ascii(&mut out, "{\"approved\":");
    if approved {
        push_ascii(&mut out, "true");
    } else {
        push_ascii(&mut out, "false");
    }
    push_ascii(&mut out, ",\"fraud_score\":");
    push_ascii(&mut out, score_literal(tenths));
    push_ascii(&mut out, "}");
    proof {
        let a = "{\"approved\":"@;
        let b = if is_approved(score) { "true"@ } else { "false"@ };
        let c = ",\"fraud_score\":"@;
        let d = score_text(score_tenths(score));
        let e = "}"@;
        assert(ascii_bytes(a + b + c + d + e) =~= ascii_bytes(a) + ascii_bytes(b) + ascii_bytes(c)
            + ascii_bytes(d) + ascii_bytes(e));
        assert(Seq::<u8>::empty() + ascii_bytes(a) =~= ascii_bytes(a));
    }
    out
}

/// Law: with five neighbours the score is a multiple of 0.2 and prints
/// exactly (`0.0`, `0.2`, .., `1.0`), and the transaction is approved exactly
/// when at most two of the five neighbours are frauds.
pub proof fn lemma_five_neighbour_scores(num: usize)
    requires
        num <= 5,
    ensures
        score_tenths(FraudScore { num, den: 5 }) == 2 * num,
        is_approved(FraudScore { num, den: 5 }) <==> num <= 2,
{
    assert((20 * num + 5) / 10 == 2 * num);
}

/// Law: a search that keeps five neighbours gives a score of denominator 5
/// that prints exactly (`0.0`, `0.2`, .., `1.0`, twice the number of frauds
/// in tenths), and approves exactly when at most two of the five are frauds.
pub proof fn lemma_full_heap_score(kept: Seq<Neighbor>)
    requires
        kept.len() == K,
    ensures
        score_of(kept) == (FraudScore { num: fraud_count(kept) as usize, den: 5 }),
        fraud_count(kept) <= 5,
        score_in_range(score_of(kept)),
        score_tenths(score_of(kept)) == 2 * fraud_count(kept),
        is_approved(score_of(kept)) <==> fraud_count(kept) <= 2,
{
    lemma_fraud_count_bound(kept);
    lemma_five_neighbour_scores(fraud_count(kept) as usize);
}

} // verus!
