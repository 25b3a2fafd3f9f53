use pos_core::payment::{create_solana_pay_url, PaymentRequest};

fn request(recipient: &str, amount_millis: u64, memo: &str, label: Option<&str>) -> PaymentRequest {
    PaymentRequest {
        recipient: recipient.to_string(),
        amount_millis,
        memo: memo.to_string(),
        label: label.map(|l| l.to_string()),
    }
}

#[test]
fn test_url_generation() {
    // 1.000 SOL
    let req = PaymentRequest {
        recipient: "ABCDE".to_string(),
        amount_millis: 1000,
        memo: "mesa 2".to_string(),
        label: Some("ZeroClaw POS".to_string()),
    };

    let url = create_solana_pay_url(&req).unwrap();

    assert!(url.url.contains("amount=1.000"));
    assert!(url.url.contains("mesa%202"));
}

#[test]
fn url_is_exactly_the_solana_pay_form() {
    let resp = create_solana_pay_url(&request("Wallet123", 31, "mesa 1", Some("ZeroClaw POS Terminal"))).unwrap();
    assert_eq!(resp.url, "solana:Wallet123?amount=0.031&memo=mesa%201&label=ZeroClaw%20POS%20Terminal");
    assert_eq!(resp.recipient, "Wallet123");
    assert_eq!(resp.amount_millis, 31);
    assert_eq!(resp.memo, "mesa 1");
}

#[test]
fn url_without_label_has_no_label_parameter() {
    let resp = create_solana_pay_url(&request("W", 125, "x", None)).unwrap();
    assert_eq!(resp.url, "solana:W?amount=0.125&memo=x");
}

#[test]
fn amount_is_written_with_three_decimals() {
    for (millis, text) in [(1u64, "0.001"), (1000, "1.000"), (12345, "12.345"), (100050, "100.050"), (u64::MAX, "18446744073709551.615")] {
        let resp = create_solana_pay_url(&request("W", millis, "", None)).unwrap();
        assert_eq!(resp.url, format!("solana:W?amount={}&memo=", text));
        // the text reads back as the amount
        let back: f64 = text.parse().unwrap();
        if millis < (1u64 << 50) {
            assert_eq!((back * 1000.0).round() as u64, millis);
        }
    }
}

#[test]
fn zero_amount_is_refused() {
    let err = create_solana_pay_url(&request("W", 0, "m", None)).unwrap_err();
    assert_eq!(err, "O valor da cobrança deve ser maior que zero.");
}

#[test]
fn zero_amount_is_reported_before_a_blank_recipient() {
    let err = create_solana_pay_url(&request("  ", 0, "m", None)).unwrap_err();
    assert_eq!(err, "O valor da cobrança deve ser maior que zero.");
}

#[test]
fn blank_recipient_is_refused() {
    for r in ["", "   ", "\t\n", "\u{3000}"] {
        let err = create_solana_pay_url(&request(r, 5, "m", None)).unwrap_err();
        assert_eq!(err, "Endereço do destinatário não pode ser vazio.");
    }
}

#[test]
fn memo_and_label_are_percent_encoded() {
    let resp = create_solana_pay_url(&request("W", 1, "a&b=c?d#ção~-._", Some("R$ 5/é"))).unwrap();
    assert_eq!(
        resp.url,
        "solana:W?amount=0.001&memo=a%26b%3Dc%3Fd%23%C3%A7%C3%A3o~-._&label=R%24%205%2F%C3%A9"
    );
}

#[test]
fn memo_cannot_add_parameters() {
    let resp = create_solana_pay_url(&request("Shop", 2500, "x&recipient=Evil&amount=999", Some("&label=y"))).unwrap();
    let tail = &resp.url["solana:Shop".len()..];
    assert_eq!(tail.matches('?').count(), 1);
    assert_eq!(tail.matches('&').count(), 2);
    assert_eq!(tail.matches('=').count(), 3);
    assert!(resp.url.starts_with("solana:Shop?amount=2.500&memo="));
}
