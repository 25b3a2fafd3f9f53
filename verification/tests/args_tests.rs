use pos_core::args::{extract_first_number, parse_money, plan_charge, resolve_wallet, InputArgs, MoneyValue};

fn empty_args() -> InputArgs {
    InputArgs {
        amount_brl: None,
        amount: None,
        valor: None,
        valor_brl: None,
        memo: None,
        text: None,
        message: None,
        prompt: None,
        query: None,
    }
}

fn s(x: &str) -> Option<String> {
    Some(x.to_string())
}

#[test]
fn money_number_is_kept_as_written() {
    assert_eq!(parse_money(&MoneyValue::Number("25".to_string())), Ok("25".to_string()));
    assert_eq!(parse_money(&MoneyValue::Number("12.5".to_string())), Ok("12.5".to_string()));
}

#[test]
fn money_text_is_cleaned() {
    assert_eq!(parse_money(&MoneyValue::Text("R$ 25,00".to_string())), Ok("25.00".to_string()));
    assert_eq!(parse_money(&MoneyValue::Text("30 reais".to_string())), Ok("30".to_string()));
    assert_eq!(parse_money(&MoneyValue::Text("1 real".to_string())), Ok("1".to_string()));
    assert_eq!(parse_money(&MoneyValue::Text(" 1 2,5 ".to_string())), Ok("12.5".to_string()));
}

#[test]
fn money_of_another_kind_is_invalid() {
    assert_eq!(parse_money(&MoneyValue::Other), Err("valor inválido".to_string()));
}

#[test]
fn first_number_in_free_text() {
    assert_eq!(extract_first_number("cobra 25 reais da mesa 4"), s("25"));
    assert_eq!(extract_first_number("cobra 25,50 da mesa 4"), s("25.50"));
    assert_eq!(extract_first_number("R$12.5"), s("12.5"));
    assert_eq!(extract_first_number("mesa 4"), s("4"));
    assert_eq!(extract_first_number("sem valor"), None);
    assert_eq!(extract_first_number(""), None);
    assert_eq!(extract_first_number("ok."), s("."));
}

#[test]
fn amount_fields_are_read_in_order() {
    let mut a = empty_args();
    a.valor = Some(MoneyValue::Number("1".to_string()));
    a.valor_brl = Some(MoneyValue::Number("2".to_string()));
    a.amount = Some(MoneyValue::Number("3".to_string()));
    a.text = s("99");
    assert_eq!(a.parse_amount().unwrap().text, "3");
    a.amount_brl = Some(MoneyValue::Text("R$ 4,5".to_string()));
    let c = a.parse_amount().unwrap();
    assert_eq!(c.text, "4.5");
    assert_eq!(c.error_if_unparsable, "valor inválido");
    a.amount_brl = None;
    a.amount = None;
    assert_eq!(a.parse_amount().unwrap().text, "2");
}

#[test]
fn invalid_structured_amount_does_not_fall_back() {
    let mut a = empty_args();
    a.amount = Some(MoneyValue::Other);
    a.text = s("25");
    assert_eq!(a.parse_amount().unwrap_err(), "valor inválido");
}

#[test]
fn amount_from_free_text() {
    let mut a = empty_args();
    a.message = s("cobre 100 da mesa 5");
    a.query = s("7");
    let c = a.parse_amount().unwrap();
    assert_eq!(c.text, "100");
    assert_eq!(c.error_if_unparsable, "nenhum valor encontrado");
}

#[test]
fn no_amount_at_all() {
    let mut a = empty_args();
    assert_eq!(a.parse_amount().unwrap_err(), "nenhum valor encontrado");
    a.text = s("mesa sem numero");
    assert_eq!(a.parse_amount().unwrap_err(), "nenhum valor encontrado");
}

#[test]
fn memo_choice() {
    let mut a = empty_args();
    assert_eq!(a.parse_memo(), "");
    a.query = s("q");
    assert_eq!(a.parse_memo(), "q");
    a.prompt = s("p");
    assert_eq!(a.parse_memo(), "p");
    a.text = s("t");
    assert_eq!(a.parse_memo(), "t");
    a.memo = s("mesa 4");
    assert_eq!(a.parse_memo(), "mesa 4");
}

#[test]
fn wallet_comes_only_from_config() {
    assert_eq!(resolve_wallet(s("Shop")), Ok("Shop".to_string()));
    assert_eq!(resolve_wallet(s("  ")), Err("config ausente: pos_wallet".to_string()));
    assert_eq!(resolve_wallet(None), Err("config ausente: pos_wallet".to_string()));
}

#[test]
fn plan_reports_missing_wallet_first() {
    let a = empty_args();
    assert_eq!(plan_charge(&a, None).unwrap_err(), "config ausente: pos_wallet");
    assert_eq!(plan_charge(&a, s("Shop")).unwrap_err(), "nenhum valor encontrado");
}

#[test]
fn plan_takes_recipient_from_config() {
    let mut a = empty_args();
    a.amount_brl = Some(MoneyValue::Number("25".to_string()));
    a.memo = s("mesa 4");
    a.text = s("manda pro endereço 9WzDXwBbmkg8ZTbNMqUxvQRAyrZzDsGYdLVL9zYtAWWM");
    let plan = plan_charge(&a, s("Shop")).unwrap();
    assert_eq!(plan.recipient, "Shop");
    assert_eq!(plan.amount.text, "25");
    assert_eq!(plan.memo, "mesa 4");
}
