use fraud_api::vectorize::reference_label;
use fraud_api::knn::FraudScore;
use fraud_api::response::render_score;
use fraud_api::vectorize::{is_known_merchant, mcc_risk, str_eq};

fn text(num: usize, den: usize) -> String {
    String::from_utf8(render_score(FraudScore { num, den })).unwrap()
}

#[test]
fn renders_scores_of_five_neighbours() {
    assert_eq!(text(0, 5), "{\"approved\":true,\"fraud_score\":0.0}");
    assert_eq!(text(1, 5), "{\"approved\":true,\"fraud_score\":0.2}");
    assert_eq!(text(2, 5), "{\"approved\":true,\"fraud_score\":0.4}");
    assert_eq!(text(3, 5), "{\"approved\":false,\"fraud_score\":0.6}");
    assert_eq!(text(4, 5), "{\"approved\":false,\"fraud_score\":0.8}");
    assert_eq!(text(5, 5), "{\"approved\":false,\"fraud_score\":1.0}");
}

#[test]
fn empty_heap_score_is_approved_and_printed_as_one() {
    // one half: approved, 5.5 tenths round down to 5, which prints as 1.0
    assert_eq!(text(1, 2), "{\"approved\":true,\"fraud_score\":1.0}");
}

#[test]
fn rendering_agrees_with_float_rounding() {
    for den in 1..=5usize {
        for num in 0..=den {
            let fs = num as f32 / den as f32;
            let approved = fs < 0.6;
            let s: &str = match (fs * 10.0 + 0.5) as u8 {
                0 => "0.0",
                2 => "0.2",
                4 => "0.4",
                6 => "0.6",
                8 => "0.8",
                _ => "1.0",
            };
            let want = format!("{{\"approved\":{},\"fraud_score\":{}}}", approved, s);
            assert_eq!(text(num, den), want, "{}/{}", num, den);
        }
    }
}

#[test]
fn mcc_risks() {
    assert_eq!(mcc_risk("5411"), 15);
    assert_eq!(mcc_risk("5812"), 30);
    assert_eq!(mcc_risk("5912"), 20);
    assert_eq!(mcc_risk("5944"), 45);
    assert_eq!(mcc_risk("7801"), 80);
    assert_eq!(mcc_risk("7802"), 75);
    assert_eq!(mcc_risk("7995"), 85);
    assert_eq!(mcc_risk("4511"), 35);
    assert_eq!(mcc_risk("5311"), 25);
    assert_eq!(mcc_risk("5999"), 50);
    assert_eq!(mcc_risk("1234"), 50);
    assert_eq!(mcc_risk(""), 50);
    assert_eq!(mcc_risk("54111"), 50);
}

#[test]
fn mcc_risk_hundredths_match_float_constants() {
    assert_eq!(mcc_risk("5411") as f32 / 100.0, 0.15f32);
    assert_eq!(mcc_risk("7995") as f32 / 100.0, 0.85f32);
    assert_eq!(mcc_risk("7802") as f32 / 100.0, 0.75f32);
}

#[test]
fn known_merchants() {
    let known = ["MERC-001", "MERC-003"];
    assert!(is_known_merchant("MERC-003", &known));
    assert!(!is_known_merchant("MERC-002", &known));
    assert!(!is_known_merchant("MERC-00", &known));
    assert!(!is_known_merchant("MERC-001", &[]));
}

#[test]
fn string_equality() {
    assert!(str_eq("abc", "abc"));
    assert!(!str_eq("abc", "abd"));
    assert!(!str_eq("abc", "ab"));
    assert!(str_eq("", ""));
}

#[test]
fn reference_labels() {
    assert_eq!(reference_label("fraud"), 1);
    assert_eq!(reference_label("legit"), 0);
    assert_eq!(reference_label("Fraud"), 0);
    assert_eq!(reference_label(""), 0);
}
