//! Reading the arguments of the payment-request tool. Models do not always
//! follow the declared schema, so the amount is accepted under several names
//! and, failing those, picked out of free text; the memo likewise. The
//! receiving address never comes from the arguments: only from the host's
//! configuration.

use vstd::prelude::*;
use crate::text::{blank, chars_of, is_blank, push_char, replace, replace_all};

verus! {

/// A JSON value given as an amount: a number (by its JSON text), a string,
/// or anything else.
#[derive(Debug, Clone)]
pub enum MoneyValue {
    Number(String),
    Text(String),
    Other,
}

/// The arguments of the tool, as far as the charge reads them.
#[derive(Debug, Clone)]
pub struct InputArgs {
    pub amount_brl: Option<MoneyValue>,
    pub amount: Option<MoneyValue>,
    pub valor: Option<MoneyValue>,
    pub valor_brl: Option<MoneyValue>,
    pub memo: Option<String>,
    pub text: Option<String>,
    pub message: Option<String>,
    pub prompt: Option<String>,
    pub query: Option<String>,
}

/// The text of an amount, still to be read as a decimal number, and the
/// error to report if it does not read as one.
#[derive(Debug, Clone)]
pub struct AmountCandidate {
    pub text: String,
    pub error_if_unparsable: String,
}

/// The error for an amount that cannot be read.
pub open spec fn invalid_value_message() -> Seq<char> {
    "valor inválido"@
}

/// The error when no amount is given at all.
pub open spec fn no_value_message() -> Seq<char> {
    "nenhum valor encontrado"@
}

/// The error when the host gave no receiving address.
pub open spec fn missing_wallet_message() -> Seq<char> {
    "config ausente: pos_wallet"@
}

/// A money text without the currency words and spaces, with a decimal point
/// in place of a decimal comma ("R$ 25,00" gives "25.00").
pub open spec fn cleaned_money_text(s: Seq<char>) -> Seq<char> {
    replace_all(
        replace_all(
            replace_all(replace_all(replace_all(s, "R$"@, ""@), "reais"@, ""@), "real"@, ""@),
            " "@,
            ""@,
        ),
        ","@,
        "."@,
    )
}

/// The number text of a money value, or the error.
pub open spec fn money_text(v: MoneyValue) -> Result<Seq<char>, Seq<char>> {
    match v {
        MoneyValue::Number(t) => Ok(t@),
        MoneyValue::Text(s) => Ok(cleaned_money_text(s@)),
        MoneyValue::Other => Err(invalid_value_message()),
    }
}

/// A result of texts through its views.
pub open spec fn text_result_view(r: Result<String, String>) -> Result<Seq<char>, Seq<char>> {
    match r {
        Ok(t) => Ok(t@),
        Err(e) => Err(e@),
    }
}

/// The number text of a money value: a JSON number as it is written, a
/// string cleaned of "R$", "reais", "real" and spaces with its decimal comma
/// made a point; any other value is invalid.
pub fn parse_money(value: &MoneyValue) -> (r: Result<String, String>)
    ensures
        text_result_view(r) == money_text(*value),
{
    match value {
        MoneyValue::Number(t) => Ok(t.clone()),
        MoneyValue::Text(s) => {
            proof {
                reveal_strlit("R$");
                reveal_strlit("reais");
                reveal_strlit("real");
                reveal_strlit(" ");
                reveal_strlit(",");
            }
            let a = replace(s.as_str(), "R$", "");
            let b = replace(a.as_str(), "reais", "");
            let c = replace(b.as_str(), "real", "");
            let d = replace(c.as_str(), " ", "");
            Ok(replace(d.as_str(), ",", "."))
        },
        MoneyValue::Other => Err(String::from_str("valor inválido")),
    }
}

/// The characters that can make up a number in free text.
pub open spec fn is_number_char(c: char) -> bool {
    ('0' <= c <= '9') || c == ',' || c == '.'
}

/// The number characters at the front of `s`.
pub open spec fn leading_number(s: Seq<char>) -> Seq<char>
    decreases s.len(),
{
    if s.len() > 0 && is_number_char(s[0]) {
        seq![s[0]] + leading_number(s.drop_first())
    } else {
        Seq::empty()
    }
}

/// The first run of number characters in `s` (empty if there is none).
pub open spec fn first_number_run(s: Seq<char>) -> Seq<char>
    decreases s.len(),
{
    if s.len() == 0 {
        Seq::empty()
    } else if is_number_char(s[0]) {
        leading_number(s)
    } else {
        first_number_run(s.drop_first())
    }
}

/// `s` with each decimal comma made a point.
pub open spec fn comma_to_point(s: Seq<char>) -> Seq<char> {
    s.map_values(|c: char| if c == ',' { '.' } else { c })
}

/// The first number written in free text, with a decimal point in place of a
/// decimal comma: "cobra 25,50 da mesa 4" gives "25.50".
pub fn extract_first_number(text: &str) -> (r: Option<String>)
    ensures
        match r {
            None => first_number_run(text@).len() == 0,
            Some(t) => first_number_run(text@).len() > 0 && t@ == comma_to_point(first_number_run(text@)),
        },
{
    let cs = chars_of(text);
    let n = cs.len();
    let mut current = String::new();
    let ghost mut taken: Seq<char> = Seq::empty();
    let mut i: usize = 0;
    assert(text@.skip(0) =~= text@);
    while i < n
        invariant_except_break
            n == cs@.len(),
            cs@ == text@,
            0 <= i <= n,
            current@ == comma_to_point(taken),
            taken.len() == 0 ==> first_number_run(text@) == first_number_run(text@.skip(i as int)),
            taken.len() > 0 ==> first_number_run(text@) == taken + leading_number(text@.skip(i as int)),
        ensures
            current@ == comma_to_point(taken),
            first_number_run(text@) == taken,
        decreases n - i,
    {
        let c = cs[i];
        let ghost rest = text@.skip(i as int);
        assert(rest[0] == c);
        assert(rest.drop_first() =~= text@.skip(i + 1));
        if ('0' <= c && c <= '9') || c == ',' || c == '.' {
            if c == ',' {
                push_char(&mut current, '.');
            } else {
                push_char(&mut current, c);
            }
            proof {
                taken = taken.push(c);
            }
            assert(current@ =~= comma_to_point(taken));
            assert(leading_number(rest) == seq![c] + leading_number(text@.skip(i + 1)));
            assert(taken + leading_number(text@.skip(i + 1)) =~= taken.drop_last() + leading_number(rest));
        } else if !current.as_str().is_empty() {
            assert(leading_number(rest) =~= Seq::<char>::empty());
            assert(first_number_run(text@) =~= taken);
            break;
        }
        i = i + 1;
    }
    proof {
        if i == n {
            assert(text@.skip(n as int) =~= Seq::<char>::empty());
            if taken.len() == 0 {
                assert(first_number_run(text@.skip(n as int)) =~= Seq::<char>::empty());
            } else {
                assert(leading_number(text@.skip(n as int)) =~= Seq::<char>::empty());
                assert(first_number_run(text@) =~= taken);
            }
        }
    }
    if current.as_str().is_empty() {
        None
    } else {
        Some(current)
    }
}

/// The first text given among the free-text fields: `text`, `message`,
/// `prompt`, `query`.
pub open spec fn free_text(a: InputArgs) -> Option<Seq<char>> {
    match a.text {
        Some(t) => Some(t@),
        None => match a.message {
            Some(t) => Some(t@),
            None => match a.prompt {
                Some(t) => Some(t@),
                None => match a.query {
                    Some(t) => Some(t@),
                    None => None,
                },
            },
        },
    }
}

/// The first amount given among `amount_brl`, `amount`, `valor_brl`,
/// `valor`.
pub open spec fn structured_amount(a: InputArgs) -> Option<MoneyValue> {
    match a.amount_brl {
        Some(v) => Some(v),
        None => match a.amount {
            Some(v) => Some(v),
            None => match a.valor_brl {
                Some(v) => Some(v),
                None => a.valor,
            },
        },
    }
}

/// The memo of a charge: the `memo` field, else the first free text, else
/// nothing.
pub open spec fn memo_of(a: InputArgs) -> Seq<char> {
    match a.memo {
        Some(m) => m@,
        None => match free_text(a) {
            Some(t) => t,
            None => Seq::empty(),
        },
    }
}

/// Where the amount of a charge comes from: the number text of the first
/// structured amount (unreadable: "valor inválido"), else the first number
/// in the first free text (unreadable: "nenhum valor encontrado"), else no
/// amount. `Ok` holds the text and the error for a text that does not read.
pub open spec fn amount_plan(a: InputArgs) -> Result<(Seq<char>, Seq<char>), Seq<char>> {
    match structured_amount(a) {
        Some(v) => match money_text(v) {
            Ok(t) => Ok((t, invalid_value_message())),
            Err(e) => Err(e),
        },
        None => match free_text(a) {
            Some(t) => if first_number_run(t).len() > 0 {
                Ok((comma_to_point(first_number_run(t)), no_value_message()))
            } else {
                Err(no_value_message())
            },
            None => Err(no_value_message()),
        },
    }
}

/// An amount candidate through its views.
pub open spec fn candidate_view(r: Result<AmountCandidate, String>) -> Result<(Seq<char>, Seq<char>), Seq<char>> {
    match r {
        Ok(c) => Ok((c.text@, c.error_if_unparsable@)),
        Err(e) => Err(e@),
    }
}

impl InputArgs {
    /// The first free text given, by reference.
    fn first_free_text(&self) -> (r: Option<&String>)
        ensures
            match r {
                Some(t) => free_text(*self) == Some(t@),
                None => free_text(*self) is None,
            },
    {
        match &self.text {
            Some(t) => Some(t),
            None => match &self.message {
                Some(t) => Some(t),
                None => match &self.prompt {
                    Some(t) => Some(t),
                    None => match &self.query {
                        Some(t) => Some(t),
                        None => None,
                    },
                },
            },
        }
    }

    /// The amount of the charge, as text still to be read as a number (see
    /// `amount_plan`). It never reads a recipient.
    pub fn parse_amount(&self) -> (r: Result<AmountCandidate, String>)
        ensures
            candidate_view(r) == amount_plan(*self),
    {
        let structured = match &self.amount_brl {
            Some(v) => Some(v),
            None => match &self.amount {
                Some(v) => Some(v),
                None => match &self.valor_brl {
                    Some(v) => Some(v),
                    None => match &self.valor {
                        Some(v) => Some(v),
                        None => None,
                    },
                },
            },
        };
        if let Some(value) = structured {
            assert(structured_amount(*self) == Some(*value));
            return match parse_money(value) {
                Ok(text) => Ok(AmountCandidate { text, error_if_unparsable: String::from_str("valor inválido") }),
                Err(e) => Err(e),
            };
        }
        if let Some(text) = self.first_free_text() {
            if let Some(number) = extract_first_number(text.as_str()) {
                return Ok(AmountCandidate {
                    text: number,
                    error_if_unparsable: String::from_str("nenhum valor encontrado"),
                });
            }
        }
        Err(String::from_str("nenhum valor encontrado"))
    }

    /// The memo of the charge (see `memo_of`).
    pub fn parse_memo(&self) -> (r: String)
        ensures
            r@ == memo_of(*self),
    {
        if let Some(m) = &self.memo {
            return m.clone();
        }
        match self.first_free_text() {
            Some(t) => t.clone(),
            None => String::new(),
        }
    }
}

/// The receiving address from the host's configuration: it must be given
/// and not blank.
pub fn resolve_wallet(pos_wallet: Option<String>) -> (r: Result<String, String>)
    ensures
        match r {
            Ok(w) => pos_wallet == Some(w) && !blank(w@),
            Err(e) => e@ == missing_wallet_message() && (pos_wallet is None || blank(pos_wallet->Some_0@)),
        },
{
    match pos_wallet {
        Some(w) => if is_blank(w.as_str()) {
            Err(String::from_str("config ausente: pos_wallet"))
        } else {
            Ok(w)
        },
        None => Err(String::from_str("config ausente: pos_wallet")),
    }
}

/// What a charge is made of before the amount is read and converted.
#[derive(Debug, Clone)]
pub struct ChargePlan {
    /// The receiving address, from the host's configuration.
    pub recipient: String,
    pub amount: AmountCandidate,
    pub memo: String,
}

/// Reads a charge from the tool's arguments and the host's configured
/// address, in the order the tool reports errors: first a missing address,
/// then a missing or invalid amount. The recipient is always the configured
/// address; the arguments cannot name one.
pub fn plan_charge(args: &InputArgs, pos_wallet: Option<String>) -> (r: Result<ChargePlan, String>)
    ensures
        match r {
            Ok(plan) => {
                &&& pos_wallet == Some(plan.recipient)
                &&& !blank(plan.recipient@)
                &&& amount_plan(*args) == Ok::<(Seq<char>, Seq<char>), Seq<char>>((plan.amount.text@, plan.amount.error_if_unparsable@))
                &&& plan.memo@ == memo_of(*args)
            },
            Err(e) => {
                ||| (pos_wallet is None || blank(pos_wallet->Some_0@)) && e@ == missing_wallet_message()
                ||| (pos_wallet matches Some(w) && !blank(w@)) && amount_plan(*args) == Err::<(Seq<char>, Seq<char>), Seq<char>>(e@)
            },
        },
{
    let recipient = resolve_wallet(pos_wallet)?;
    let amount = args.parse_amount()?;
    let memo = args.parse_memo();
    Ok(ChargePlan { recipient, amount, memo })
}

// ---------------------------------------------------------------------------
// Laws
// ---------------------------------------------------------------------------

/// What reading the amount from a money value gives: its number text, with
/// "valor inválido" as the error for a text that does not read; an error as
/// it is.
pub open spec fn from_money(v: MoneyValue) -> Result<(Seq<char>, Seq<char>), Seq<char>> {
    match money_text(v) {
        Ok(t) => Ok((t, invalid_value_message())),
        Err(e) => Err(e),
    }
}

/// What reading the amount from free text gives: its first number, comma
/// made a point, with "nenhum valor encontrado" as the error for a number
/// that does not read; no number is that error.
pub open spec fn from_free_text(t: Seq<char>) -> Result<(Seq<char>, Seq<char>), Seq<char>> {
    if first_number_run(t).len() > 0 {
        Ok((comma_to_point(first_number_run(t)), no_value_message()))
    } else {
        Err(no_value_message())
    }
}

/// The amount is read from the first of `amount_brl`, `amount`, `valor_brl`,
/// `valor` that is given, whatever the others and the free text hold; only
/// when none is given, from the first of `text`, `message`, `prompt`,
/// `query` that is given; with none of them there is no amount.
pub proof fn law_amount_field_priority(a: InputArgs)
    ensures
        a.amount_brl matches Some(v) ==> amount_plan(a) == from_money(v),
        a.amount matches Some(v) ==> (a.amount_brl is None ==> amount_plan(a) == from_money(v)),
        a.valor_brl matches Some(v) ==> (a.amount_brl is None && a.amount is None ==> amount_plan(a) == from_money(v)),
        a.valor matches Some(v) ==> (a.amount_brl is None && a.amount is None && a.valor_brl is None ==> amount_plan(a)
            == from_money(v)),
        a.text matches Some(t) ==> (no_structured_amount(a) ==> amount_plan(a) == from_free_text(t@)),
        a.message matches Some(t) ==> (no_structured_amount(a) && a.text is None ==> amount_plan(a) == from_free_text(
            t@,
        )),
        a.prompt matches Some(t) ==> (no_structured_amount(a) && a.text is None && a.message is None ==> amount_plan(a)
            == from_free_text(t@)),
        a.query matches Some(t) ==> (no_structured_amount(a) && a.text is None && a.message is None && a.prompt is None
            ==> amount_plan(a) == from_free_text(t@)),
        no_structured_amount(a) && a.text is None && a.message is None && a.prompt is None && a.query is None
            ==> amount_plan(a) == Err::<(Seq<char>, Seq<char>), Seq<char>>(no_value_message()),
{
}

/// None of `amount_brl`, `amount`, `valor_brl`, `valor` is given.
pub open spec fn no_structured_amount(a: InputArgs) -> bool {
    a.amount_brl is None && a.amount is None && a.valor_brl is None && a.valor is None
}

/// The memo is the `memo` field when given, else the first of `text`,
/// `message`, `prompt`, `query` that is given, else empty.
pub proof fn law_memo_field_priority(a: InputArgs)
    ensures
        a.memo matches Some(m) ==> memo_of(a) == m@,
        a.text matches Some(t) ==> (a.memo is None ==> memo_of(a) == t@),
        a.message matches Some(t) ==> (a.memo is None && a.text is None ==> memo_of(a) == t@),
        a.prompt matches Some(t) ==> (a.memo is None && a.text is None && a.message is None ==> memo_of(a) == t@),
        a.query matches Some(t) ==> (a.memo is None && a.text is None && a.message is None && a.prompt is None
            ==> memo_of(a) == t@),
        a.memo is None && a.text is None && a.message is None && a.prompt is None && a.query is None ==> memo_of(a)
            == Seq::<char>::empty(),
{
}

proof fn lemma_leading_number(s: Seq<char>)
    ensures
        leading_number(s).len() <= s.len(),
        s.take(leading_number(s).len() as int) == leading_number(s),
        forall|j: int| 0 <= j < leading_number(s).len() ==> is_number_char(#[trigger] leading_number(s)[j]),
        leading_number(s).len() < s.len() ==> !is_number_char(s[leading_number(s).len() as int]),
    decreases s.len(),
{
    if s.len() > 0 && is_number_char(s[0]) {
        let d = s.drop_first();
        lemma_leading_number(d);
        let r = leading_number(s);
        assert(r == seq![s[0]] + leading_number(d));
        assert(s.take(r.len() as int) =~= r);
        assert forall|j: int| 0 <= j < r.len() implies is_number_char(#[trigger] r[j]) by {
            if j > 0 {
                assert(r[j] == leading_number(d)[j - 1]);
            }
        }
        if r.len() < s.len() {
            assert(s[r.len() as int] == d[leading_number(d).len() as int]);
        }
    } else {
        assert(s.take(0) =~= Seq::<char>::empty());
    }
}

/// The number picked out of free text is its first run of number characters
/// (digits, `,` and `.`), whole: it stands at some position `p` of the text,
/// no number character comes before `p`, every character of the run is a
/// number character, and the character after it (if any) is not. When the
/// text holds no number character, the run is empty.
pub proof fn law_first_number_run_is_first_whole_run(s: Seq<char>) -> (p: int)
    ensures
        ({
            let run = first_number_run(s);
            &&& 0 <= p <= s.len()
            &&& p + run.len() <= s.len()
            &&& s.subrange(p, p + run.len()) == run
            &&& forall|q: int| 0 <= q < p ==> !is_number_char(#[trigger] s[q])
            &&& forall|j: int| 0 <= j < run.len() ==> is_number_char(#[trigger] run[j])
            &&& p + run.len() < s.len() ==> !is_number_char(s[p + run.len()])
            &&& run.len() == 0 ==> p == s.len()
        }),
    decreases s.len(),
{
    if s.len() == 0 {
        assert(s.subrange(0, 0) =~= first_number_run(s));
        0
    } else if is_number_char(s[0]) {
        lemma_leading_number(s);
        assert(s.subrange(0, leading_number(s).len() as int) =~= s.take(leading_number(s).len() as int));
        0
    } else {
        let d = s.drop_first();
        let q = law_first_number_run_is_first_whole_run(d);
        let run = first_number_run(s);
        assert(run == first_number_run(d));
        assert(s.subrange(q + 1, q + 1 + run.len()) =~= d.subrange(q, q + run.len()));
        assert forall|k: int| 0 <= k < q + 1 implies !is_number_char(#[trigger] s[k]) by {
            if k > 0 {
                assert(s[k] == d[k - 1]);
            }
        }
        if q + 1 + run.len() < s.len() {
            assert(s[q + 1 + run.len()] == d[q + run.len()]);
        }
        q + 1
    }
}

/// Whether no character of `t` is the first character of `pat`.
spec fn avoids(t: Seq<char>, c: char) -> bool {
    forall|i: int| 0 <= i < t.len() ==> t[i] != c
}

proof fn lemma_replace_absent(s: Seq<char>, pat: Seq<char>, rep: Seq<char>)
    requires
        pat.len() > 0,
        avoids(s, pat[0]),
    ensures
        replace_all(s, pat, rep) == s,
    decreases s.len(),
{
    if s.len() > 0 {
        lemma_replace_absent(s.drop_first(), pat, rep);
        if pat.len() <= s.len() {
            assert(s.take(pat.len() as int)[0] != pat[0]);
        }
        assert(seq![s[0]] + s.drop_first() =~= s);
    }
}

proof fn lemma_replace_front(a: Seq<char>, b: Seq<char>, pat: Seq<char>, rep: Seq<char>)
    requires
        pat.len() > 0,
        avoids(a, pat[0]),
    ensures
        replace_all(a + b, pat, rep) == a + replace_all(b, pat, rep),
    decreases a.len(),
{
    if a.len() > 0 {
        let s = a + b;
        lemma_replace_front(a.drop_first(), b, pat, rep);
        assert(s.drop_first() =~= a.drop_first() + b);
        if pat.len() <= s.len() {
            assert(s.take(pat.len() as int)[0] != pat[0]);
        }
        assert(seq![a[0]] + (a.drop_first() + replace_all(b, pat, rep)) =~= a + replace_all(b, pat, rep));
    } else {
        assert(a + b =~= b);
        assert(a + replace_all(b, pat, rep) =~= replace_all(b, pat, rep));
    }
}

proof fn lemma_replace_at_start(b: Seq<char>, pat: Seq<char>, rep: Seq<char>)
    requires
        pat.len() > 0,
    ensures
        replace_all(pat + b, pat, rep) == rep + replace_all(b, pat, rep),
{
    let s = pat + b;
    assert(s.take(pat.len() as int) =~= pat);
    assert(s.skip(pat.len() as int) =~= b);
}

proof fn lemma_comma_to_point(s: Seq<char>)
    ensures
        replace_all(s, ","@, "."@) == comma_to_point(s),
    decreases s.len(),
{
    reveal_strlit(",");
    reveal_strlit(".");
    if s.len() > 0 {
        lemma_comma_to_point(s.drop_first());
        assert(comma_to_point(s) =~= seq![comma_to_point(s)[0]] + comma_to_point(s.drop_first()));
        if s[0] == ',' {
            assert(s.take(1) =~= ","@);
            assert(s.skip(1) =~= s.drop_first());
            assert(replace_all(s, ","@, "."@) == "."@ + replace_all(s.skip(1), ","@, "."@));
            assert("."@ =~= seq!['.']);
        } else {
            assert(s.take(1)[0] != (","@)[0]);
            assert(s.take(1) != ","@);
            assert(replace_all(s, ","@, "."@) == seq![s[0]] + replace_all(s.drop_first(), ","@, "."@));
        }
    } else {
        assert(comma_to_point(s) =~= Seq::<char>::empty());
    }
}

/// Money written as digits with a decimal comma or point reads as the same
/// number whether it is written bare, after "R$", after "R$ ", or followed by
/// " reais": the currency words and the space go, the comma becomes a point.
pub proof fn law_money_text_ignores_currency(t: Seq<char>, s: String)
    requires
        forall|i: int| 0 <= i < t.len() ==> is_number_char(#[trigger] t[i]),
        s@ == t || s@ == "R$"@ + t || s@ == "R$ "@ + t || s@ == t + " reais"@,
    ensures
        money_text(MoneyValue::Text(s)) == Ok::<Seq<char>, Seq<char>>(comma_to_point(t)),
{
    reveal_strlit("R$");
    reveal_strlit("R$ ");
    reveal_strlit("reais");
    reveal_strlit(" reais");
    reveal_strlit("real");
    reveal_strlit(" ");
    reveal_strlit(",");
    reveal_strlit(".");
    let e: Seq<char> = ""@;
    reveal_strlit("");
    assert(avoids(t, 'R') && avoids(t, 'r') && avoids(t, ' '));
    // what is left once "R$", "reais" and "real" are gone
    let after_words = if s@ == t + " reais"@ {
        t + " "@
    } else if s@ == "R$ "@ + t {
        " "@ + t
    } else {
        t
    };
    if s@ == t {
        lemma_replace_absent(t, "R$"@, e);
        lemma_replace_absent(t, "reais"@, e);
        lemma_replace_absent(t, "real"@, e);
    } else if s@ == "R$"@ + t {
        lemma_replace_at_start(t, "R$"@, e);
        lemma_replace_absent(t, "R$"@, e);
        assert(e + t =~= t);
        lemma_replace_absent(t, "reais"@, e);
        lemma_replace_absent(t, "real"@, e);
    } else if s@ == "R$ "@ + t {
        assert("R$ "@ == "R$"@ + " "@);
        assert(s@ =~= "R$"@ + (" "@ + t));
        lemma_replace_at_start(" "@ + t, "R$"@, e);
        assert(avoids(" "@ + t, 'R'));
        lemma_replace_absent(" "@ + t, "R$"@, e);
        assert(e + (" "@ + t) =~= " "@ + t);
        assert(avoids(" "@ + t, 'r'));
        lemma_replace_absent(" "@ + t, "reais"@, e);
        lemma_replace_absent(" "@ + t, "real"@, e);
    } else {
        assert(avoids(t + " reais"@, 'R'));
        lemma_replace_absent(t + " reais"@, "R$"@, e);
        assert(t + " reais"@ =~= (t + " "@) + "reais"@);
        assert(avoids(t + " "@, 'r'));
        lemma_replace_front(t + " "@, "reais"@, "reais"@, e);
        lemma_replace_at_start(Seq::<char>::empty(), "reais"@, e);
        assert("reais"@ + Seq::<char>::empty() =~= "reais"@);
        assert(replace_all(Seq::<char>::empty(), "reais"@, e) =~= Seq::<char>::empty());
        assert((t + " "@) + e =~= t + " "@);
        lemma_replace_absent(t + " "@, "real"@, e);
    }
    assert(replace_all(replace_all(replace_all(s@, "R$"@, e), "reais"@, e), "real"@, e) == after_words);
    // then the space goes
    if s@ == t + " reais"@ {
        lemma_replace_front(t, " "@, " "@, e);
        lemma_replace_at_start(Seq::<char>::empty(), " "@, e);
        assert(" "@ + Seq::<char>::empty() =~= " "@);
        assert(replace_all(Seq::<char>::empty(), " "@, e) =~= Seq::<char>::empty());
        assert(t + e =~= t);
    } else if s@ == "R$ "@ + t {
        lemma_replace_at_start(t, " "@, e);
        assert(e + t =~= t);
    }
    lemma_replace_absent(t, " "@, e);
    assert(replace_all(after_words, " "@, e) == t);
    lemma_comma_to_point(t);
}

} // verus!
