//! Solana Pay payment requests: the `solana:` URL that a payer's wallet
//! resolves and signs. Amounts are counted in thousandths of a SOL, the
//! precision at which the terminal charges.

use vstd::prelude::*;
use crate::text::{blank, is_blank};

verus! {

// ---------------------------------------------------------------------------
// Percent-encoding
// ---------------------------------------------------------------------------

/// The bytes that percent-encoding keeps as they are: ASCII letters and
/// digits, and `-`, `.`, `_`, `~`.
pub open spec fn is_unreserved(b: u8) -> bool {
    ||| 48 <= b <= 57
    ||| 65 <= b <= 90
    ||| 97 <= b <= 122
    ||| b == 45
    ||| b == 46
    ||| b == 95
    ||| b == 126
}

/// The upper-case hexadecimal digit for `d` (below 16).
pub open spec fn hex_digit(d: u8) -> char {
    if d < 10 {
        (48 + d) as char
    } else {
        (55 + d) as char
    }
}

/// Percent-encoding of bytes: an unreserved byte stands for itself, any
/// other becomes `%` and its two upper-case hexadecimal digits.
pub open spec fn percent_encode(bytes: Seq<u8>) -> Seq<char>
    decreases bytes.len(),
{
    if bytes.len() == 0 {
        Seq::empty()
    } else {
        let b = bytes[0];
        (if is_unreserved(b) {
            seq![b as char]
        } else {
            seq!['%', hex_digit(b / 16), hex_digit(b % 16)]
        }) + percent_encode(bytes.drop_first())
    }
}

/// Calls `urlencoding::encode`: it percent-encodes every byte of the UTF-8
/// form of `s` except ASCII letters, digits and `-`, `.`, `_`, `~`, with
/// upper-case hexadecimal digits.
#[verifier::external_body]
fn url_encode(s: &str) -> (r: String)
    ensures
        r@ == percent_encode(vstd::utf8::encode_utf8(s@)),
{
    urlencoding::encode(s).into_owned()
}

// ---------------------------------------------------------------------------
// Amounts
// ---------------------------------------------------------------------------

/// The ASCII digit for `d` (below 10).
pub open spec fn digit_char(d: nat) -> char {
    (48 + d) as char
}

/// The decimal digits of `n`, without leading zeros.
pub open spec fn decimal(n: nat) -> Seq<char>
    decreases n,
{
    if n < 10 {
        seq![digit_char(n)]
    } else {
        decimal(n / 10).push(digit_char(n % 10))
    }
}

/// An amount of `millis` thousandths written with exactly three decimals,
/// as `1.000` or `0.031`.
pub open spec fn amount_text(millis: nat) -> Seq<char> {
    decimal(millis / 1000) + seq![
        '.',
        digit_char((millis / 100) % 10),
        digit_char((millis / 10) % 10),
        digit_char(millis % 10),
    ]
}

/// A one-character text for the digit `d`.
fn digit_str(d: u64) -> (s: &'static str)
    requires
        d < 10,
    ensures
        s@ == seq![digit_char(d as nat)],
{
    proof {
        reveal_strlit("0");
        reveal_strlit("1");
        reveal_strlit("2");
        reveal_strlit("3");
        reveal_strlit("4");
        reveal_strlit("5");
        reveal_strlit("6");
        reveal_strlit("7");
        reveal_strlit("8");
        reveal_strlit("9");
    }
    match d {
        0 => "0",
        1 => "1",
        2 => "2",
        3 => "3",
        4 => "4",
        5 => "5",
        6 => "6",
        7 => "7",
        8 => "8",
        _ => "9",
    }
}

/// Appends the decimal digits of `n`.
fn push_decimal(out: &mut String, n: u64)
    ensures
        final(out)@ == old(out)@ + decimal(n as nat),
    decreases n,
{
    if n >= 10 {
        push_decimal(out, n / 10);
    }
    out.append(digit_str(n % 10));
}

/// Appends an amount of `millis` thousandths with three decimals.
fn push_amount(out: &mut String, millis: u64)
    ensures
        final(out)@ == old(out)@ + amount_text(millis as nat),
{
    let ghost start = out@;
    push_decimal(out, millis / 1000);
    out.append(".");
    out.append(digit_str((millis / 100) % 10));
    out.append(digit_str((millis / 10) % 10));
    out.append(digit_str(millis % 10));
    proof {
        reveal_strlit(".");
    }
    assert(out@ =~= start + amount_text(millis as nat));
}

// ---------------------------------------------------------------------------
// Payment requests
// ---------------------------------------------------------------------------

/// A Solana Pay request, always in SOL.
#[derive(Debug, Clone)]
pub struct PaymentRequest {
    /// The merchant's public receiving address.
    pub recipient: String,
    /// The amount, in thousandths of a SOL.
    pub amount_millis: u64,
    pub memo: String,
    pub label: Option<String>,
}

/// What a payment request gives: the URL and what it was made from.
#[derive(Debug, Clone)]
pub struct PaymentResponse {
    pub url: String,
    pub recipient: String,
    /// The amount, in thousandths of a SOL.
    pub amount_millis: u64,
    pub memo: String,
}

/// An optional text through its view.
pub open spec fn opt_view(o: Option<String>) -> Option<Seq<char>> {
    match o {
        Some(s) => Some(s@),
        None => None,
    }
}

/// The Solana Pay URL for a recipient, an amount in thousandths of a SOL, a
/// memo and an optional label; memo and label are percent-encoded.
pub open spec fn solana_pay_url(recipient: Seq<char>, millis: nat, memo: Seq<char>, label: Option<Seq<char>>) -> Seq<char> {
    "solana:"@ + recipient + "?amount="@ + amount_text(millis) + "&memo="@
        + percent_encode(vstd::utf8::encode_utf8(memo)) + match label {
        Some(l) => "&label="@ + percent_encode(vstd::utf8::encode_utf8(l)),
        None => Seq::empty(),
    }
}

/// The message for a request whose amount is not above zero.
pub open spec fn zero_amount_message() -> Seq<char> {
    "O valor da cobrança deve ser maior que zero."@
}

/// The message for a request whose recipient is empty or white space.
pub open spec fn empty_recipient_message() -> Seq<char> {
    "Endereço do destinatário não pode ser vazio."@
}

/// Builds the `solana:` URL of a payment request. The amount must be above
/// zero and the recipient must not be blank; the memo and the label are
/// percent-encoded, the amount written with three decimals.
pub fn create_solana_pay_url(req: &PaymentRequest) -> (r: Result<PaymentResponse, String>)
    ensures
        match r {
            Err(e) => {
                ||| req.amount_millis == 0 && e@ == zero_amount_message()
                ||| req.amount_millis > 0 && blank(req.recipient@) && e@ == empty_recipient_message()
            },
            Ok(resp) => {
                &&& req.amount_millis > 0
                &&& !blank(req.recipient@)
                &&& resp.url@ == solana_pay_url(req.recipient@, req.amount_millis as nat, req.memo@, opt_view(req.label))
                &&& resp.recipient@ == req.recipient@
                &&& resp.amount_millis == req.amount_millis
                &&& resp.memo@ == req.memo@
            },
        },
{
    if req.amount_millis == 0 {
        return Err(String::from_str("O valor da cobrança deve ser maior que zero."));
    }
    if is_blank(req.recipient.as_str()) {
        return Err(String::from_str("Endereço do destinatário não pode ser vazio."));
    }
    let memo_encoded = url_encode(req.memo.as_str());
    let mut url = String::from_str("solana:");
    url.append(req.recipient.as_str());
    url.append("?amount=");
    push_amount(&mut url, req.amount_millis);
    url.append("&memo=");
    url.append(memo_encoded.as_str());
    match &req.label {
        Some(l) => {
            let label_encoded = url_encode(l.as_str());
            url.append("&label=");
            url.append(label_encoded.as_str());
        },
        None => {},
    }
    assert(url@ =~= solana_pay_url(req.recipient@, req.amount_millis as nat, req.memo@, opt_view(req.label)));
    Ok(PaymentResponse {
        url,
        recipient: req.recipient.clone(),
        amount_millis: req.amount_millis,
        memo: req.memo.clone(),
    })
}

// ---------------------------------------------------------------------------
// Laws
// ---------------------------------------------------------------------------

/// The characters that percent-encoded text is made of.
pub open spec fn is_encoded_char(c: char) -> bool {
    ||| ('0' <= c <= '9')
    ||| ('A' <= c <= 'Z')
    ||| ('a' <= c <= 'z')
    ||| c == '-'
    ||| c == '.'
    ||| c == '_'
    ||| c == '~'
    ||| c == '%'
}

/// Percent-encoded text holds only letters, digits, `-`, `.`, `_`, `~` and
/// `%`: no `&`, `=`, `?`, `#` or space can pass through it.
pub proof fn law_percent_encoding_is_inert(bytes: Seq<u8>)
    ensures
        forall|i: int| 0 <= i < percent_encode(bytes).len() ==> is_encoded_char(#[trigger] percent_encode(bytes)[i]),
    decreases bytes.len(),
{
    if bytes.len() > 0 {
        law_percent_encoding_is_inert(bytes.drop_first());
        let b = bytes[0];
        let head = if is_unreserved(b) {
            seq![b as char]
        } else {
            seq!['%', hex_digit(b / 16), hex_digit(b % 16)]
        };
        let tail = percent_encode(bytes.drop_first());
        assert(percent_encode(bytes) == head + tail);
        assert forall|i: int| 0 <= i < percent_encode(bytes).len() implies is_encoded_char(#[trigger] percent_encode(bytes)[i]) by {
            if i >= head.len() {
                assert(percent_encode(bytes)[i] == tail[i - head.len()]);
            }
        }
    }
}

/// How many times `c` occurs in `s`.
pub open spec fn count_char(s: Seq<char>, c: char) -> nat
    decreases s.len(),
{
    if s.len() == 0 {
        0
    } else {
        count_char(s.drop_last(), c) + if s.last() == c {
            1nat
        } else {
            0nat
        }
    }
}

proof fn lemma_count_concat(a: Seq<char>, b: Seq<char>, c: char)
    ensures
        count_char(a + b, c) == count_char(a, c) + count_char(b, c),
    decreases b.len(),
{
    if b.len() > 0 {
        lemma_count_concat(a, b.drop_last(), c);
        assert((a + b).drop_last() =~= a + b.drop_last());
    } else {
        assert(a + b =~= a);
    }
}

proof fn lemma_count_absent(s: Seq<char>, c: char)
    requires
        forall|i: int| 0 <= i < s.len() ==> s[i] != c,
    ensures
        count_char(s, c) == 0,
    decreases s.len(),
{
    if s.len() > 0 {
        lemma_count_absent(s.drop_last(), c);
    }
}

proof fn lemma_digit_char(d: nat)
    requires
        d < 10,
    ensures
        digit_char(d) as nat == 48 + d,
        '0' <= digit_char(d) <= '9',
{
}

proof fn lemma_decimal_digits(n: nat)
    ensures
        forall|i: int| 0 <= i < decimal(n).len() ==> '0' <= #[trigger] decimal(n)[i] <= '9',
    decreases n,
{
    lemma_digit_char(n % 10);
    if n >= 10 {
        lemma_decimal_digits(n / 10);
        let d = decimal(n / 10);
        assert forall|i: int| 0 <= i < decimal(n).len() implies '0' <= #[trigger] decimal(n)[i] <= '9' by {
            if i < d.len() {
                assert(decimal(n)[i] == d[i]);
            }
        }
    }
}

/// The value of a text of decimal digits.
pub open spec fn digits_value(s: Seq<char>) -> nat
    decreases s.len(),
{
    if s.len() == 0 {
        0
    } else {
        digits_value(s.drop_last()) * 10 + ((s.last() as nat) - 48) as nat
    }
}

proof fn lemma_decimal_value(n: nat)
    ensures
        digits_value(decimal(n)) == n,
        decimal(n).len() > 0,
    decreases n,
{
    lemma_digit_char(n % 10);
    if n >= 10 {
        lemma_decimal_value(n / 10);
        assert(decimal(n).drop_last() =~= decimal(n / 10));
        assert(decimal(n).last() == digit_char(n % 10));
        assert(digits_value(decimal(n)) == digits_value(decimal(n / 10)) * 10 + (n % 10));
        assert((n / 10) * 10 + n % 10 == n);
    } else {
        assert(seq![digit_char(n)].drop_last() =~= Seq::<char>::empty());
        assert(digits_value(decimal(n)) == digits_value(Seq::<char>::empty()) * 10 + n);
    }
}

/// The amount text of a request reads back as the amount: its whole part
/// and its three decimals give the thousandths that were asked for.
pub proof fn law_amount_text_reads_back(millis: nat)
    ensures
        ({
            let t = amount_text(millis);
            &&& t.len() >= 5
            &&& t[t.len() - 4] == '.'
            &&& digits_value(t.take(t.len() - 4)) * 1000 + digits_value(t.skip(t.len() - 3)) == millis
        }),
{
    let t = amount_text(millis);
    let whole = decimal(millis / 1000);
    lemma_decimal_value(millis / 1000);
    assert(t.take(t.len() - 4) =~= whole);
    let frac = t.skip(t.len() - 3);
    assert(frac =~= seq![
        digit_char((millis / 100) % 10),
        digit_char((millis / 10) % 10),
        digit_char(millis % 10),
    ]);
    assert(frac.drop_last().drop_last().drop_last() =~= Seq::<char>::empty());
    assert(frac.drop_last().drop_last() =~= seq![digit_char((millis / 100) % 10)]);
    assert(frac.drop_last() =~= seq![digit_char((millis / 100) % 10), digit_char((millis / 10) % 10)]);
    lemma_digit_char((millis / 100) % 10);
    lemma_digit_char((millis / 10) % 10);
    lemma_digit_char(millis % 10);
    let d1 = (millis / 100) % 10;
    let d2 = (millis / 10) % 10;
    let d3 = millis % 10;
    let f1 = frac.drop_last().drop_last();
    assert(f1.drop_last() =~= Seq::<char>::empty());
    assert(f1.last() == digit_char(d1));
    assert(digits_value(f1) == digits_value(f1.drop_last()) * 10 + d1);
    assert(digits_value(f1) == d1);
    assert(digits_value(frac.drop_last()) == d1 * 10 + d2);
    assert(digits_value(frac) == (d1 * 10 + d2) * 10 + d3);
    assert(digits_value(frac) == ((millis / 100) % 10) * 100 + ((millis / 10) % 10) * 10 + millis % 10);
    assert(((millis / 100) % 10) * 100 + ((millis / 10) % 10) * 10 + millis % 10 == millis % 1000) by (nonlinear_arith);
}

/// Neither the memo nor the label can add or change a parameter of the
/// URL: after the recipient, the URL holds exactly one `?`, one `&` and one
/// `=` per parameter (amount, memo, and the label when there is one),
/// whatever the memo and label say.
pub proof fn law_memo_and_label_cannot_add_parameters(
    recipient: Seq<char>,
    millis: nat,
    memo: Seq<char>,
    label: Option<Seq<char>>,
)
    ensures
        ({
            let url = solana_pay_url(recipient, millis, memo, label);
            let tail = url.skip(7 + recipient.len() as int);
            let extra: nat = if label is Some { 1 } else { 0 };
            &&& url.take(7 + recipient.len() as int) == "solana:"@ + recipient
            &&& count_char(tail, '?') == 1
            &&& count_char(tail, '&') == 1 + extra
            &&& count_char(tail, '=') == 2 + extra
        }),
{
    reveal_strlit("solana:");
    reveal_strlit("?amount=");
    reveal_strlit("&memo=");
    reveal_strlit("&label=");
    let url = solana_pay_url(recipient, millis, memo, label);
    let amount = amount_text(millis);
    let memo_enc = percent_encode(vstd::utf8::encode_utf8(memo));
    let label_part = match label {
        Some(l) => "&label="@ + percent_encode(vstd::utf8::encode_utf8(l)),
        None => Seq::empty(),
    };
    let tail = "?amount="@ + amount + "&memo="@ + memo_enc + label_part;
    assert(url =~= ("solana:"@ + recipient) + tail);
    assert(url.take(7 + recipient.len() as int) =~= "solana:"@ + recipient);
    assert(url.skip(7 + recipient.len() as int) =~= tail);
    law_percent_encoding_is_inert(vstd::utf8::encode_utf8(memo));
    lemma_decimal_digits(millis / 1000);
    assert forall|i: int| 0 <= i < amount.len() implies amount[i] != '?' && amount[i] != '&' && amount[i] != '=' by {
        if i < decimal(millis / 1000).len() {
            assert(amount[i] == decimal(millis / 1000)[i]);
        }
    }
    let marks = seq!['?', '&', '='];
    assert forall|j: int| 0 <= j < 3 implies #[trigger] count_char(amount, marks[j]) == 0 && count_char(memo_enc, marks[j]) == 0 by {
        lemma_count_absent(amount, marks[j]);
        lemma_count_absent(memo_enc, marks[j]);
    }
    assert forall|j: int| 0 <= j < 3 implies #[trigger] count_char(tail, marks[j]) == count_char("?amount="@, marks[j])
        + count_char("&memo="@, marks[j]) + count_char(label_part, marks[j]) by {
        let c = marks[j];
        lemma_count_concat("?amount="@, amount, c);
        lemma_count_concat("?amount="@ + amount, "&memo="@, c);
        lemma_count_concat("?amount="@ + amount + "&memo="@, memo_enc, c);
        lemma_count_concat("?amount="@ + amount + "&memo="@ + memo_enc, label_part, c);
        assert(count_char(amount, c) == 0 && count_char(memo_enc, c) == 0);
    }
    reveal_with_fuel(count_char, 9);
    assert(count_char("?amount="@, '?') == 1);
    assert(count_char("?amount="@, '&') == 0);
    assert(count_char("?amount="@, '=') == 1);
    assert(count_char("&memo="@, '?') == 0);
    assert(count_char("&memo="@, '&') == 1);
    assert(count_char("&memo="@, '=') == 1);
    match label {
        Some(l) => {
            let label_enc = percent_encode(vstd::utf8::encode_utf8(l));
            law_percent_encoding_is_inert(vstd::utf8::encode_utf8(l));
            assert(count_char("&label="@, '?') == 0);
            assert(count_char("&label="@, '&') == 1);
            assert(count_char("&label="@, '=') == 1);
            assert forall|j: int| 0 <= j < 3 implies #[trigger] count_char(label_part, marks[j]) == count_char("&label="@, marks[j]) by {
                lemma_count_absent(label_enc, marks[j]);
                lemma_count_concat("&label="@, label_enc, marks[j]);
            }
            assert(marks[0] == '?' && marks[1] == '&' && marks[2] == '=');
        },
        None => {
            assert(marks[0] == '?' && marks[1] == '&' && marks[2] == '=');
        },
    }
}

} // verus!
