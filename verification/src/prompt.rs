//! What is sent to the model and what is kept of its answer.
//!
//! The request carries the description and the amount of each movement and
//! nothing else. The answer is trusted only as far as it can be checked: a
//! category that does not exist, a movement that was not asked about, or a
//! category the amount's sign contradicts are dropped.
use vstd::prelude::*;

use crate::ai::{AiError, AiProvider, Suggestion};
use crate::brands::BrandFact;
use crate::domain::{Category, CategoryKind, Transaction};
use crate::money::{decimal_digits, decimal_text, push_decimal, Money};
use crate::text::{
    ascii_to_lower, chars_of, is_ascii, push_str, string_from_chars, string_from_str, trim,
    trimmed_chars, unicode_uppercase_text, uppercase_str,
};

verus! {

/// What the model learns of a movement. Deliberately no ids, accounts or
/// balances: the description and the amount are enough to propose a category.
#[derive(Debug, Clone, PartialEq, Eq)]
pub struct SuggestionRequest {
    pub description: String,
    pub counterparty: Option<String>,
    pub amount: Money,
}

impl SuggestionRequest {
    /// The request for a stored movement.
    pub fn from_transaction(transaction: &Transaction) -> (r: SuggestionRequest)
        ensures
            r.description@ == transaction.description@,
            r.amount == transaction.amount,
            match transaction.counterparty {
                Some(c) => r.counterparty matches Some(rc) && rc@ == c@,
                None => r.counterparty is None,
            },
    {
        SuggestionRequest {
            description: string_from_str(transaction.description.as_str()),
            counterparty: match &transaction.counterparty {
                Some(c) => Some(string_from_str(c.as_str())),
                None => None,
            },
            amount: transaction.amount,
        }
    }
}

/// Whether `r` is the request for movement `t`.
pub open spec fn is_request_for(r: SuggestionRequest, t: Transaction) -> bool {
    &&& r.description@ == t.description@
    &&& r.amount == t.amount
    &&& match t.counterparty {
        Some(c) => r.counterparty matches Some(rc) && rc@ == c@,
        None => r.counterparty is None,
    }
}

/// `endpoint` without its trailing slashes (`str::trim_end_matches('/')`).
pub open spec fn without_trailing_slashes(endpoint: Seq<char>) -> Seq<char>
    decreases endpoint.len(),
{
    if endpoint.len() > 0 && endpoint.last() == '/' {
        without_trailing_slashes(endpoint.drop_last())
    } else {
        endpoint
    }
}

/// The address of an API route of the model's server: the endpoint without
/// trailing slashes, then the route.
pub fn api_url(endpoint: &str, route: &str) -> (r: String)
    ensures
        r@ == without_trailing_slashes(endpoint@) + route@,
{
    let mut base = chars_of(endpoint);
    while base.len() > 0 && base[base.len() - 1] == '/'
        invariant
            without_trailing_slashes(base@) == without_trailing_slashes(endpoint@),
        decreases base.len(),
    {
        base.pop();
    }
    let mut url = string_from_chars(&base);
    push_str(&mut url, route);
    url
}

/// A call to the model, ready to be made: where, with which model, and one
/// request per movement, in the order given.
#[derive(Debug, Clone, PartialEq, Eq)]
pub struct SuggestionCall {
    pub endpoint: String,
    pub model: String,
    pub requests: Vec<SuggestionRequest>,
}

/// What asking for suggestions comes to before anything is sent. A disabled
/// assistant is refused and never reaches the network; an empty batch needs
/// no call; otherwise each movement becomes its request.
pub fn plan_suggestions(provider: &AiProvider, transactions: &[Transaction]) -> (r: Result<
    Option<SuggestionCall>,
    AiError,
>)
    ensures
        (*provider is Disabled) <==> (r matches Err(e) && e is Disabled),
        r matches Err(e) ==> e is Disabled,
        (r matches Ok(None)) <==> (*provider is Ollama && transactions@.len() == 0),
        r matches Ok(Some(call)) ==> {
            &&& *provider matches AiProvider::Ollama { endpoint, model } && call.endpoint@ == endpoint@
                && call.model@ == model@
            &&& call.requests@.len() == transactions@.len()
            &&& forall|i: int|
                0 <= i < transactions@.len() ==> is_request_for(#[trigger] call.requests@[i], transactions@[i])
        },
{
    match provider {
        AiProvider::Disabled => Err(AiError::Disabled),
        AiProvider::Ollama { endpoint, model } => {
            if transactions.len() == 0 {
                return Ok(None);
            }
            let mut requests: Vec<SuggestionRequest> = Vec::new();
            let mut i: usize = 0;
            while i < transactions.len()
                invariant
                    i <= transactions@.len(),
                    requests@.len() == i,
                    forall|j: int| 0 <= j < i ==> is_request_for(#[trigger] requests@[j], transactions@[j]),
                decreases transactions@.len() - i,
            {
                requests.push(SuggestionRequest::from_transaction(&transactions[i]));
                i = i + 1;
            }
            Ok(
                Some(
                    SuggestionCall {
                        endpoint: string_from_str(endpoint.as_str()),
                        model: string_from_str(model.as_str()),
                        requests,
                    },
                ),
            )
        },
    }
}

/// Where to ask whether the model answers: the provider's endpoint, or the
/// refusal of a disabled assistant, which asks nothing.
pub fn availability_endpoint(provider: &AiProvider) -> (r: Result<String, AiError>)
    ensures
        match *provider {
            AiProvider::Disabled => r matches Err(e) && e is Disabled,
            AiProvider::Ollama { endpoint, .. } => r matches Ok(u) && u@ == endpoint@,
        },
{
    match provider {
        AiProvider::Disabled => Err(AiError::Disabled),
        AiProvider::Ollama { endpoint, .. } => Ok(string_from_str(endpoint.as_str())),
    }
}

/// A suggestion as the model wrote it, before any check.
#[derive(Debug, Clone, PartialEq, Eq)]
pub struct RawSuggestion {
    pub index: usize,
    pub category: String,
    pub confidence: Option<u8>,
}

// ---------------------------------------------------------------------------
// Category hints
// ---------------------------------------------------------------------------

/// Domain hints for the built-in categories. Without them a small local
/// model files almost everything under "other".
pub open spec fn hint_table() -> Seq<(&'static str, &'static str)> {
    seq![
        ("Nómina", "monthly pay from an employer (NOMINA, PAYROLL)"),
        ("Freelance", "invoices billed by the account holder"),
        ("Inversiones", "dividends, interest, brokerage returns"),
        ("Devoluciones", "money given back for a previous purchase (ABONO, DEVOLUCION)"),
        ("Otros ingresos", "any other money coming in"),
        ("Supermercado", "supermarkets and food shops (MERCADONA, CONSUM, CARREFOUR, LIDL, DIA, ALCAMPO)"),
        ("Vivienda", "rent and mortgage (ALQUILER, HIPOTECA, PRESTAMO HIPOTECARIO), community fees"),
        ("Suministros", "power, water, gas, phone and internet (IBERDROLA, ENDESA, NATURGY, AGUAS, VODAFONE, MOVISTAR, ORANGE)"),
        ("Transporte", "fuel, public transport, taxis, tolls, trains (REPSOL, CEPSA, METRO, EMT, RENFE, UBER, CABIFY)"),
        ("Salud", "pharmacies, doctors, dentists, health insurance (FARMACIA, ADESLAS, SANITAS)"),
        ("Ocio", "gyms, cinema, concerts, hobbies, travel (BASIC FIT, CINESA, BOOKING)"),
        ("Suscripciones", "recurring digital services (SPOTIFY, NETFLIX, HBO, AMAZON PRIME, GITHUB, ICLOUD)"),
        ("Restaurantes", "bars, restaurants, coffee, food delivery (BAR, RESTAURANTE, GLOVO, UBER EATS)"),
        ("Compras", "clothes, electronics, general retail (AMAZON, ZARA, DECATHLON, MEDIA MARKT, EL CORTE INGLES)"),
        ("Impuestos", "tax authorities and public fees (AGENCIA TRIBUTARIA, IRPF, IVA, AYUNTAMIENTO)"),
        ("Comisiones", "bank charges and commissions (COMISION, MANTENIMIENTO)"),
        ("Otros gastos", "any other money going out"),
        ("Traspaso", "moving money between the holder's own accounts (TRASPASO, TRANSFERENCIA)"),
    ]
}

/// The hint of the first entry of `table` named `name`.
pub open spec fn hint_in(table: Seq<(&'static str, &'static str)>, name: Seq<char>) -> Option<Seq<char>>
    decreases table.len(),
{
    if table.len() == 0 {
        None
    } else if table[0].0@ == name {
        Some(table[0].1@)
    } else {
        hint_in(table.drop_first(), name)
    }
}

/// The hint of a built-in category; a category created by the user travels
/// with its bare name.
pub open spec fn hint_of(name: Seq<char>) -> Option<Seq<char>> {
    hint_in(hint_table(), name)
}

/// The domain hint of a built-in category.
pub fn hint_for(category: &str) -> (r: Option<&'static str>)
    ensures
        match r {
            Some(h) => hint_of(category@) == Some(h@),
            None => hint_of(category@) is None,
        },
{
    let table: Vec<(&'static str, &'static str)> = vec![
        ("Nómina", "monthly pay from an employer (NOMINA, PAYROLL)"),
        ("Freelance", "invoices billed by the account holder"),
        ("Inversiones", "dividends, interest, brokerage returns"),
        ("Devoluciones", "money given back for a previous purchase (ABONO, DEVOLUCION)"),
        ("Otros ingresos", "any other money coming in"),
        ("Supermercado", "supermarkets and food shops (MERCADONA, CONSUM, CARREFOUR, LIDL, DIA, ALCAMPO)"),
        ("Vivienda", "rent and mortgage (ALQUILER, HIPOTECA, PRESTAMO HIPOTECARIO), community fees"),
        ("Suministros", "power, water, gas, phone and internet (IBERDROLA, ENDESA, NATURGY, AGUAS, VODAFONE, MOVISTAR, ORANGE)"),
        ("Transporte", "fuel, public transport, taxis, tolls, trains (REPSOL, CEPSA, METRO, EMT, RENFE, UBER, CABIFY)"),
        ("Salud", "pharmacies, doctors, dentists, health insurance (FARMACIA, ADESLAS, SANITAS)"),
        ("Ocio", "gyms, cinema, concerts, hobbies, travel (BASIC FIT, CINESA, BOOKING)"),
        ("Suscripciones", "recurring digital services (SPOTIFY, NETFLIX, HBO, AMAZON PRIME, GITHUB, ICLOUD)"),
        ("Restaurantes", "bars, restaurants, coffee, food delivery (BAR, RESTAURANTE, GLOVO, UBER EATS)"),
        ("Compras", "clothes, electronics, general retail (AMAZON, ZARA, DECATHLON, MEDIA MARKT, EL CORTE INGLES)"),
        ("Impuestos", "tax authorities and public fees (AGENCIA TRIBUTARIA, IRPF, IVA, AYUNTAMIENTO)"),
        ("Comisiones", "bank charges and commissions (COMISION, MANTENIMIENTO)"),
        ("Otros gastos", "any other money going out"),
        ("Traspaso", "moving money between the holder's own accounts (TRASPASO, TRANSFERENCIA)"),
    ];
    assert(table@ == hint_table());
    assert(hint_table().skip(0) =~= hint_table());
    let mut k: usize = 0;
    while k < table.len()
        invariant
            k <= table.len(),
            table@ == hint_table(),
            hint_of(category@) == hint_in(hint_table().skip(k as int), category@),
        decreases table.len() - k,
    {
        let ghost rest = hint_table().skip(k as int);
        assert(rest[0] == table@[k as int]);
        assert(rest.drop_first() =~= hint_table().skip(k + 1));
        let (name, hint) = table[k];
        if crate::text::str_eq(name, category) {
            return Some(hint);
        }
        k = k + 1;
    }
    assert(hint_table().skip(k as int).len() == 0);
    None
}

// ---------------------------------------------------------------------------
// Checking the answer
// ---------------------------------------------------------------------------

/// Whether a category of `kind` can hold an amount: a transfer goes either
/// way; income cannot be negative and an expense cannot be positive (zero
/// contradicts nothing).
pub open spec fn sign_fits(kind: CategoryKind, amount: int) -> bool {
    match kind {
        CategoryKind::Transfer => true,
        CategoryKind::Income => amount >= 0,
        CategoryKind::Expense => amount <= 0,
    }
}

pub fn fits_the_sign(kind: CategoryKind, amount: Money) -> (r: bool)
    ensures
        r == sign_fits(kind, amount.0 as int),
{
    match kind {
        CategoryKind::Transfer => true,
        CategoryKind::Income => !amount.is_negative(),
        CategoryKind::Expense => amount.is_negative() || amount.is_zero(),
    }
}

/// `s` with ASCII letters in lower case.
pub open spec fn ascii_folded(s: Seq<char>) -> Seq<char> {
    s.map_values(|c: char| ascii_to_lower(c))
}

/// Equal but for the case of ASCII letters (`str::eq_ignore_ascii_case`).
pub open spec fn equal_ignoring_ascii_case(a: Seq<char>, b: Seq<char>) -> bool {
    ascii_folded(a) == ascii_folded(b)
}

/// Position of the first category named `name`, ignoring ASCII case and
/// the spaces around `name`.
pub open spec fn category_named(categories: Seq<Category>, name: Seq<char>) -> Option<int>
    decreases categories.len(),
{
    if categories.len() == 0 {
        None
    } else {
        match category_named(categories.drop_last(), name) {
            Some(k) => Some(k),
            None => if equal_ignoring_ascii_case(categories.last().name@, trim(name)) {
                Some(categories.len() - 1)
            } else {
                None
            },
        }
    }
}

/// A kept suggestion: movement, the real category name, confidence.
pub open spec fn kept_suggestion(
    raw: RawSuggestion,
    requests: Seq<SuggestionRequest>,
    categories: Seq<Category>,
) -> Option<(usize, Seq<char>, u8)> {
    if raw.index >= requests.len() {
        None
    } else {
        match category_named(categories, raw.category@) {
            None => None,
            Some(k) => if !sign_fits(categories[k].kind, requests[raw.index as int].amount.0 as int) {
                None
            } else {
                let declared: u8 = match raw.confidence {
                    Some(c) => c,
                    None => 50,
                };
                Some((raw.index, categories[k].name@, if declared > 100 { 100u8 } else { declared }))
            },
        }
    }
}

/// The suggestions kept of `raw`, in order.
pub open spec fn kept_suggestions(
    raw: Seq<RawSuggestion>,
    requests: Seq<SuggestionRequest>,
    categories: Seq<Category>,
) -> Seq<(usize, Seq<char>, u8)>
    decreases raw.len(),
{
    if raw.len() == 0 {
        Seq::empty()
    } else {
        let before = kept_suggestions(raw.drop_last(), requests, categories);
        match kept_suggestion(raw.last(), requests, categories) {
            Some(s) => before.push(s),
            None => before,
        }
    }
}

proof fn lemma_category_named_in_range(categories: Seq<Category>, name: Seq<char>)
    ensures
        category_named(categories, name) matches Some(k) ==> 0 <= k < categories.len(),
    decreases categories.len(),
{
    if categories.len() > 0 {
        lemma_category_named_in_range(categories.drop_last(), name);
    }
}

/// The answer is trusted only as far as it can be checked: every suggestion
/// kept is about a movement that was asked about, names a category that
/// exists (by its real name) and whose side agrees with the sign of the
/// movement's amount, and declares a confidence of at most 100.
pub proof fn lemma_kept_suggestions_can_be_trusted(
    raw: Seq<RawSuggestion>,
    requests: Seq<SuggestionRequest>,
    categories: Seq<Category>,
)
    ensures
        forall|p: int|
            0 <= p < kept_suggestions(raw, requests, categories).len() ==> {
                let s = #[trigger] kept_suggestions(raw, requests, categories)[p];
                &&& s.0 < requests.len()
                &&& exists|k: int|
                    0 <= k < categories.len() && categories[k].name@ == s.1 && sign_fits(
                        categories[k].kind,
                        requests[s.0 as int].amount.0 as int,
                    )
                &&& s.2 <= 100
            },
    decreases raw.len(),
{
    if raw.len() > 0 {
        lemma_kept_suggestions_can_be_trusted(raw.drop_last(), requests, categories);
        lemma_category_named_in_range(categories, raw.last().category@);
        let before = kept_suggestions(raw.drop_last(), requests, categories);
        let now = kept_suggestions(raw, requests, categories);
        assert forall|p: int| 0 <= p < now.len() implies {
            let s = #[trigger] now[p];
            &&& s.0 < requests.len()
            &&& exists|k: int|
                0 <= k < categories.len() && categories[k].name@ == s.1 && sign_fits(
                    categories[k].kind,
                    requests[s.0 as int].amount.0 as int,
                )
            &&& s.2 <= 100
        } by {
            if p < before.len() {
                assert(now[p] == before[p]);
            } else {
                let k = category_named(categories, raw.last().category@)->0;
                assert(categories[k].name@ == now[p].1);
            }
        }
    }
}

pub open spec fn suggestion_views(v: Seq<Suggestion>) -> Seq<(usize, Seq<char>, u8)> {
    v.map_values(|s: Suggestion| (s.index, s.category_name@, s.confidence))
}

fn equal_ignoring_ascii_case_exec(a: &Vec<char>, b: &Vec<char>) -> (r: bool)
    ensures
        r == equal_ignoring_ascii_case(a@, b@),
{
    if a.len() != b.len() {
        assert(ascii_folded(a@).len() != ascii_folded(b@).len());
        return false;
    }
    let mut i: usize = 0;
    while i < a.len()
        invariant
            a.len() == b.len(),
            i <= a.len(),
            forall|j: int| 0 <= j < i ==> ascii_to_lower(#[trigger] a@[j]) == ascii_to_lower(b@[j]),
        decreases a.len() - i,
    {
        let x = a[i];
        let y = b[i];
        let lx = if 'A' <= x && x <= 'Z' {
            ((x as u32) + 32) as u8 as char
        } else {
            x
        };
        let ly = if 'A' <= y && y <= 'Z' {
            ((y as u32) + 32) as u8 as char
        } else {
            y
        };
        assert(lx == ascii_to_lower(x));
        assert(ly == ascii_to_lower(y));
        if lx != ly {
            assert(ascii_folded(a@)[i as int] != ascii_folded(b@)[i as int]);
            return false;
        }
        i = i + 1;
    }
    assert(ascii_folded(a@) =~= ascii_folded(b@));
    true
}

/// The first category named `name`, ignoring ASCII case.
fn find_category(categories: &[Category], name: &str) -> (r: Option<usize>)
    ensures
        match r {
            Some(k) => k < categories.len() && category_named(categories@, name@) == Some(k as int),
            None => category_named(categories@, name@) is None,
        },
{
    let wanted = trimmed_chars(name);
    let mut k: usize = 0;
    assert(categories@.take(0) =~= Seq::<Category>::empty());
    while k < categories.len()
        invariant
            k <= categories.len(),
            wanted@ == trim(name@),
            category_named(categories@.take(k as int), name@) is None,
        decreases categories.len() - k,
    {
        let candidate = chars_of(categories[k].name.as_str());
        assert(categories@.take(k + 1).drop_last() =~= categories@.take(k as int));
        if equal_ignoring_ascii_case_exec(&candidate, &wanted) {
            proof {
                lemma_category_named_prefix(categories@, name@, k + 1);
            }
            return Some(k);
        }
        k = k + 1;
    }
    assert(categories@.take(k as int) =~= categories@);
    None
}

/// Once found in a prefix, the first category named `name` stays found.
proof fn lemma_category_named_prefix(categories: Seq<Category>, name: Seq<char>, n: int)
    requires
        0 <= n <= categories.len(),
        category_named(categories.take(n), name) is Some,
    ensures
        category_named(categories, name) == category_named(categories.take(n), name),
    decreases categories.len() - n,
{
    if n < categories.len() {
        assert(categories.take(n + 1).drop_last() =~= categories.take(n));
        lemma_category_named_prefix(categories, name, n + 1);
    } else {
        assert(categories.take(n) =~= categories);
    }
}

/// Keeps the suggestions the answer can be held to: a movement that was
/// asked about, a category that exists (the model cannot invent one), under
/// its real name, and a sign that does not contradict the category. A missing
/// confidence counts as 50, and none goes above 100.
pub fn select_suggestions(
    raw: &[RawSuggestion],
    requests: &[SuggestionRequest],
    categories: &[Category],
) -> (r: Vec<Suggestion>)
    ensures
        suggestion_views(r@) == kept_suggestions(raw@, requests@, categories@),
{
    let mut kept: Vec<Suggestion> = Vec::new();
    let mut i: usize = 0;
    assert(raw@.take(0) =~= Seq::<RawSuggestion>::empty());
    assert(suggestion_views(kept@) =~= Seq::<(usize, Seq<char>, u8)>::empty());
    while i < raw.len()
        invariant
            i <= raw.len(),
            suggestion_views(kept@) == kept_suggestions(raw@.take(i as int), requests@, categories@),
        decreases raw.len() - i,
    {
        let item = &raw[i];
        assert(raw@.take(i + 1).drop_last() =~= raw@.take(i as int));
        assert(raw@.take(i + 1).last() == *item);
        if item.index < requests.len() {
            match find_category(categories, item.category.as_str()) {
                Some(k) => {
                    let category = &categories[k];
                    if fits_the_sign(category.kind, requests[item.index].amount) {
                        let declared = match item.confidence {
                            Some(c) => c,
                            None => 50,
                        };
                        let confidence = if declared > 100 {
                            100
                        } else {
                            declared
                        };
                        let ghost before = suggestion_views(kept@);
                        kept.push(
                            Suggestion {
                                index: item.index,
                                category_name: string_from_str(category.name.as_str()),
                                confidence,
                            },
                        );
                        assert(suggestion_views(kept@) =~= before.push(
                            (item.index, category.name@, confidence),
                        ));
                    }
                },
                None => {},
            }
        }
        i = i + 1;
    }
    assert(raw@.take(i as int) =~= raw@);
    kept
}

/// Where the JSON array of the answer is: small local models wrap it in
/// prose or in a code block, so it is looked for rather than required. From
/// the first `[` to the last `]`, if the last comes after the first.
pub open spec fn array_bounds(answer: Seq<char>) -> Option<(int, int)> {
    if exists|i: int| 0 <= i < answer.len() && answer[i] == '[' {
        let start = choose|i: int|
            0 <= i < answer.len() && answer[i] == '[' && forall|j: int| 0 <= j < i ==> answer[j] != '[';
        if exists|i: int| 0 <= i < answer.len() && answer[i] == ']' {
            let end = choose|i: int|
                0 <= i < answer.len() && answer[i] == ']' && forall|j: int| i < j < answer.len() ==> answer[j] != ']';
            if end <= start {
                None
            } else {
                Some((start, end))
            }
        } else {
            None
        }
    } else {
        None
    }
}

/// The JSON array inside the model's answer, if there is one.
pub fn extract_array(answer: &str) -> (r: Option<String>)
    ensures
        match array_bounds(answer@) {
            Some((start, end)) => r matches Some(s) && s@ == answer@.subrange(start, end + 1),
            None => r is None,
        },
{
    let chars = chars_of(answer);
    let mut start: usize = 0;
    while start < chars.len() && chars[start] != '['
        invariant
            start <= chars.len(),
            chars@ == answer@,
            forall|j: int| 0 <= j < start ==> chars@[j] != '[',
        decreases chars.len() - start,
    {
        start = start + 1;
    }
    if start == chars.len() {
        return None;
    }
    assert(0 <= start < answer@.len() && answer@[start as int] == '[');
    let mut end: usize = chars.len();
    while end > 0 && chars[end - 1] != ']'
        invariant
            end <= chars.len(),
            chars@ == answer@,
            forall|j: int| end <= j < chars.len() ==> chars@[j] != ']',
        decreases end,
    {
        end = end - 1;
    }
    if end == 0 {
        return None;
    }
    let last = end - 1;
    assert(0 <= last < answer@.len() && answer@[last as int] == ']');
    proof {
        let s = choose|i: int|
            0 <= i < answer@.len() && answer@[i] == '[' && forall|j: int| 0 <= j < i ==> answer@[j] != '[';
        assert(s == start) by {
            if s < start {
                assert(answer@[s] != '[');
            } else if s > start {
                assert(answer@[start as int] != '[');
            }
        }
        let e = choose|i: int|
            0 <= i < answer@.len() && answer@[i] == ']' && forall|j: int| i < j < answer@.len() ==> answer@[j] != ']';
        assert(e == last) by {
            if e < last {
                assert(answer@[last as int] != ']');
            } else if e > last {
                assert(answer@[e] != ']');
            }
        }
    }
    if last <= start {
        return None;
    }
    let mut out: Vec<char> = Vec::new();
    let mut i: usize = start;
    while i <= last
        invariant
            start <= i <= last + 1,
            last < chars.len(),
            out@ == chars@.subrange(start as int, i as int),
        decreases last + 1 - i,
    {
        out.push(chars[i]);
        assert(chars@.subrange(start as int, i + 1) =~= chars@.subrange(start as int, i as int).push(
            chars@[i as int],
        ));
        i = i + 1;
    }
    Some(string_from_chars(&out))
}

// ---------------------------------------------------------------------------
// The prompt
// ---------------------------------------------------------------------------

/// What the model reads first: what it is looking at and how signs work.
pub const PROMPT_INTRO: &'static str = "You are categorising transactions from a Spanish bank statement.\n\
     Descriptions may carry bank noise around the merchant name: prefixes like\n\
     COMPRA TARJ., RECIBO, PAGO or ADEUDO, card numbers such as *4417, and a trailing\n\
     city. Identify the merchant and ignore the rest.\n\n\
     A negative amount is money leaving the account, a positive amount is money coming in.\n\
     Never give an income category to a negative amount, or an expense category to a\n\
     positive one.\n\n\
     The category names below are in Spanish: copy the name exactly as written.\n\n\
     Categories:\n";

/// How Spanish local businesses are named: most merchants of a statement
/// are shops no model has heard of, but their name says what they do.
pub const PROMPT_LOCAL_BUSINESSES: &'static str = "\nMost merchants are small local businesses no model has heard of. In Spain the\n\
     kind of business is usually part of its name, so classify by that word and ignore\n\
     the rest:\n\
     - Restaurantes: BAR, CAFE, CAFETERIA, TABERNA, MESON, ASADOR, RESTAURANTE,\n\
       PIZZERIA, HELADERIA, CERVECERIA, FREIDURIA, MARISQUERIA, CHIRINGUITO, TAPAS\n\
     - Transporte: E.S. and ES (estacion de servicio, a petrol station), GASOLINERA,\n\
       PARKING, APARCAMIENTO, TELPARK, PARK, PK, AUTOPISTA, PEAJE, TAXI\n\
     - Supermercado: SUPERMERCADO, ALIMENTACION, FRUTERIA, CARNICERIA, PANADERIA,\n\
       PESCADERIA, ULTRAMARINOS\n\
     - Compras: FLORISTERIA, JOYERIA, PAPELERIA, FERRETERIA, LIBRERIA, ZAPATERIA,\n\
       PERFUMERIA, BAZAR, MUEBLES, JUGUETES\n\
     - Salud: FARMACIA, CLINICA, DENTAL, OPTICA, FISIOTERAPIA, VETERINARIO\n\
     - Ocio: GIMNASIO, GYM, CINE, DISCOTECA, KARAOKE, BOLERA, PARQUE, MUSEO\n\
     A place or city name after the business word is just the branch: \"Cafe Himilce\"\n\
     is a cafe and \"Parking Santa Margarita\" is a car park.\n";

/// Introduces what was looked up about the merchants.
pub const PROMPT_BRANDS: &'static str = "\nThese merchant names were looked up and are known to be the following. Trust\n\
     this over your own guess about the name:\n";

/// The shape of the answer, with a low-confidence way out for every index.
pub const PROMPT_ANSWER_FORMAT: &'static str = "\nAnswer with a JSON array and nothing else. One element per transaction, in order,\n\
     with no index missing:\n\
     {\"index\": <number>, \"category\": \"<exact category name>\", \"confidence\": <0-100>}.\n\
     Every index from 0 to the last one must appear exactly once. If no category clearly\n\
     fits, use \"Otros gastos\" for a negative amount or \"Otros ingresos\" for a positive\n\
     one, with a confidence below 40.\n\
     Use confidence 90+ only when the merchant is unmistakable.\n\nTransactions:\n";

pub open spec fn category_line(c: Category) -> Seq<char> {
    match hint_of(c.name@) {
        Some(h) => "- "@ + c.name@ + ": "@ + h + "\n"@,
        None => "- "@ + c.name@ + "\n"@,
    }
}

pub open spec fn category_lines(cs: Seq<Category>) -> Seq<char>
    decreases cs.len(),
{
    if cs.len() == 0 {
        Seq::empty()
    } else {
        category_lines(cs.drop_last()) + category_line(cs.last())
    }
}

pub open spec fn brand_line(b: BrandFact) -> Seq<char> {
    "- "@ + unicode_uppercase_text(b.term@) + ": "@ + b.summary@ + "\n"@
}

pub open spec fn brand_lines(bs: Seq<BrandFact>) -> Seq<char>
    decreases bs.len(),
{
    if bs.len() == 0 {
        Seq::empty()
    } else {
        brand_lines(bs.drop_last()) + brand_line(bs.last())
    }
}

/// The counterparty of a request, when it says something.
pub open spec fn counterparty_note(counterparty: Option<String>) -> Seq<char> {
    match counterparty {
        Some(v) => if trim(v@).len() > 0 {
            " | counterparty: "@ + v@
        } else {
            Seq::empty()
        },
        None => Seq::empty(),
    }
}

pub open spec fn request_line(index: nat, r: SuggestionRequest) -> Seq<char> {
    decimal_digits(index) + ". "@ + trim(r.description@) + " | amount: "@ + decimal_text(r.amount.0 as int)
        + counterparty_note(r.counterparty) + "\n"@
}

/// One numbered line per request, numbered from 0.
pub open spec fn request_lines(rs: Seq<SuggestionRequest>) -> Seq<char>
    decreases rs.len(),
{
    if rs.len() == 0 {
        Seq::empty()
    } else {
        request_lines(rs.drop_last()) + request_line((rs.len() - 1) as nat, rs.last())
    }
}

/// The whole prompt.
pub open spec fn prompt_text(
    requests: Seq<SuggestionRequest>,
    categories: Seq<Category>,
    brands: Seq<BrandFact>,
) -> Seq<char> {
    PROMPT_INTRO@ + category_lines(categories) + PROMPT_LOCAL_BUSINESSES@ + (if brands.len() > 0 {
        PROMPT_BRANDS@ + brand_lines(brands)
    } else {
        Seq::empty()
    }) + PROMPT_ANSWER_FORMAT@ + request_lines(requests)
}

proof fn lemma_request_lines_see_only_the_requests_text(r1: Seq<SuggestionRequest>, r2: Seq<SuggestionRequest>)
    requires
        r1.len() == r2.len(),
        forall|i: int|
            0 <= i < r1.len() ==> {
                &&& (#[trigger] r1[i]).description@ == r2[i].description@
                &&& r1[i].amount == r2[i].amount
                &&& crate::domain::opt_text(r1[i].counterparty) == crate::domain::opt_text(r2[i].counterparty)
            },
    ensures
        request_lines(r1) == request_lines(r2),
    decreases r1.len(),
{
    if r1.len() > 0 {
        lemma_request_lines_see_only_the_requests_text(r1.drop_last(), r2.drop_last());
        let (a, b) = (r1.last(), r2.last());
        assert(a == r1[r1.len() - 1] && b == r2[r2.len() - 1]);
        assert(counterparty_note(a.counterparty) == counterparty_note(b.counterparty));
    }
}

/// What the model reads of the movements is their description, counterparty
/// and amount: two batches whose movements agree on those, position by
/// position, make the same prompt, whatever their ids, accounts, dates,
/// balances, notes or fingerprints.
pub proof fn lemma_prompt_sees_only_description_counterparty_and_amount(
    first: Seq<Transaction>,
    second: Seq<Transaction>,
    first_requests: Seq<SuggestionRequest>,
    second_requests: Seq<SuggestionRequest>,
    categories: Seq<Category>,
    brands: Seq<BrandFact>,
)
    requires
        first.len() == second.len(),
        first_requests.len() == first.len(),
        second_requests.len() == second.len(),
        forall|i: int|
            0 <= i < first.len() ==> {
                &&& is_request_for(#[trigger] first_requests[i], first[i])
                &&& is_request_for(second_requests[i], second[i])
                &&& first[i].description@ == second[i].description@
                &&& crate::domain::opt_text(first[i].counterparty) == crate::domain::opt_text(second[i].counterparty)
                &&& first[i].amount == second[i].amount
            },
    ensures
        prompt_text(first_requests, categories, brands) == prompt_text(second_requests, categories, brands),
{
    assert forall|i: int| 0 <= i < first_requests.len() implies {
        &&& (#[trigger] first_requests[i]).description@ == second_requests[i].description@
        &&& first_requests[i].amount == second_requests[i].amount
        &&& crate::domain::opt_text(first_requests[i].counterparty) == crate::domain::opt_text(
            second_requests[i].counterparty,
        )
    } by {
        assert(is_request_for(first_requests[i], first[i]));
    }
    lemma_request_lines_see_only_the_requests_text(first_requests, second_requests);
}

/// The prompt for a batch: what the model is reading, the categories with
/// their hints, how local businesses are named, what was looked up about
/// the merchants, the shape of the answer, and one line per movement.
pub fn build(requests: &[SuggestionRequest], categories: &[Category], brands: &[BrandFact]) -> (r:
    String)
    requires
        requests.len() < u64::MAX,
    ensures
        r@ == prompt_text(requests@, categories@, brands@),
{
    let mut prompt = string_from_str(PROMPT_INTRO);
    let ghost head = prompt@;
    let mut k: usize = 0;
    assert(categories@.take(0) =~= Seq::<Category>::empty());
    assert(head + category_lines(Seq::<Category>::empty()) =~= head);
    while k < categories.len()
        invariant
            k <= categories.len(),
            prompt@ == head + category_lines(categories@.take(k as int)),
        decreases categories.len() - k,
    {
        let category = &categories[k];
        assert(categories@.take(k + 1).drop_last() =~= categories@.take(k as int));
        assert(categories@.take(k + 1).last() == *category);
        let ghost before = prompt@;
        push_str(&mut prompt, "- ");
        push_str(&mut prompt, category.name.as_str());
        match hint_for(category.name.as_str()) {
            Some(hint) => {
                push_str(&mut prompt, ": ");
                push_str(&mut prompt, hint);
                push_str(&mut prompt, "\n");
            },
            None => {
                push_str(&mut prompt, "\n");
            },
        }
        assert(prompt@ =~= before + category_line(*category));
        k = k + 1;
    }
    assert(categories@.take(k as int) =~= categories@);
    push_str(&mut prompt, PROMPT_LOCAL_BUSINESSES);
    let ghost middle = prompt@;
    if brands.len() > 0 {
        push_str(&mut prompt, PROMPT_BRANDS);
        let ghost brand_head = prompt@;
        let mut b: usize = 0;
        assert(brands@.take(0) =~= Seq::<BrandFact>::empty());
        assert(brand_head + brand_lines(Seq::<BrandFact>::empty()) =~= brand_head);
        while b < brands.len()
            invariant
                b <= brands.len(),
                prompt@ == brand_head + brand_lines(brands@.take(b as int)),
            decreases brands.len() - b,
        {
            let brand = &brands[b];
            assert(brands@.take(b + 1).drop_last() =~= brands@.take(b as int));
            assert(brands@.take(b + 1).last() == *brand);
            let ghost before = prompt@;
            let term = uppercase_str(brand.term.as_str());
            push_str(&mut prompt, "- ");
            push_str(&mut prompt, term.as_str());
            push_str(&mut prompt, ": ");
            push_str(&mut prompt, brand.summary.as_str());
            push_str(&mut prompt, "\n");
            assert(prompt@ =~= before + brand_line(*brand));
            b = b + 1;
        }
        assert(brands@.take(b as int) =~= brands@);
        assert(prompt@ =~= middle + (PROMPT_BRANDS@ + brand_lines(brands@)));
    } else {
        assert(prompt@ =~= middle + Seq::<char>::empty());
    }
    push_str(&mut prompt, PROMPT_ANSWER_FORMAT);
    let ghost tail_head = prompt@;
    let mut i: usize = 0;
    assert(requests@.take(0) =~= Seq::<SuggestionRequest>::empty());
    assert(tail_head + request_lines(Seq::<SuggestionRequest>::empty()) =~= tail_head);
    while i < requests.len()
        invariant
            i <= requests.len() < u64::MAX,
            prompt@ == tail_head + request_lines(requests@.take(i as int)),
        decreases requests.len() - i,
    {
        let request = &requests[i];
        assert(requests@.take(i + 1).drop_last() =~= requests@.take(i as int));
        assert(requests@.take(i + 1).last() == *request);
        let ghost before = prompt@;
        push_decimal(i as u64, &mut prompt);
        push_str(&mut prompt, ". ");
        let description = string_from_chars(&trimmed_chars(request.description.as_str()));
        push_str(&mut prompt, description.as_str());
        push_str(&mut prompt, " | amount: ");
        let amount = request.amount.to_decimal_string();
        push_str(&mut prompt, amount.as_str());
        match &request.counterparty {
            Some(value) => {
                if !crate::rules::is_blank(value.as_str()) {
                    push_str(&mut prompt, " | counterparty: ");
                    push_str(&mut prompt, value.as_str());
                }
            },
            None => {},
        }
        push_str(&mut prompt, "\n");
        assert(prompt@ =~= before + request_line(i as nat, *request));
        i = i + 1;
    }
    assert(requests@.take(i as int) =~= requests@);
    prompt
}

} // verus!
