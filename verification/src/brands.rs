//! Optional lookup of what a merchant is.
//!
//! A local model knows the big chains and not the neighbourhood shops, so it
//! files merchants a search engine identifies in one line under "other
//! expenses". This module decides what may be asked outside (only the
//! merchant token, and nothing when the movement smells of a person) and reads
//! the answers, keeping only those that describe a business.
use vstd::prelude::*;

use crate::ai::AiError;
use vstd::string::StringSliceAdditionalSpecFns;
use crate::domain::{normalize_description, normalized_description};
use crate::learning::split_on_space;
use crate::text::{
    ascii_digit, char_views, chars_of, contains_chars, contains_seq, join_exec, join_with,
    lowercase_str, push_char, push_str, same_chars, string_from_chars, string_from_str,
    to_uppercase, trim, trim_end_chars, trimmed_chars, unicode_lowercase_text, unicode_uppercase,
    words_exec, words_of,
};

verus! {

/// Key under which the setting is stored.
pub const BRAND_SETTINGS_KEY: &'static str = "ai.brand_lookup";

/// The search engine asked first. Fixed on purpose: a configurable endpoint
/// would turn a categorisation setting into a way of sending descriptions
/// anywhere.
pub const LOOKUP_ENDPOINT: &'static str = "https://api.duckduckgo.com/";

/// The second source, the Spanish Wikipedia, which knows the local chains.
pub const WIKIPEDIA_ENDPOINT: &'static str = "https://es.wikipedia.org/api/rest_v1/page/summary/";

/// The lookup setting. Off until the user says otherwise.
#[derive(Debug, Clone, Copy, Default, PartialEq, Eq, Structural)]
pub struct BrandLookupSettings {
    pub enabled: bool,
}

/// What is known of a brand, ready for the prompt.
#[derive(Debug, Clone, PartialEq, Eq)]
pub struct BrandFact {
    pub term: String,
    pub summary: String,
}

/// What resolving the brands of a batch has gathered so far: the facts
/// found and how many lookups failed.
#[derive(Debug, Clone, PartialEq, Eq)]
pub struct BrandResolution {
    pub facts: Vec<BrandFact>,
    pub failed: usize,
}

impl BrandResolution {
    pub fn new() -> (r: BrandResolution)
        ensures
            r.facts@.len() == 0,
            r.failed == 0,
    {
        BrandResolution { facts: Vec::new(), failed: 0 }
    }

    /// The local cache knew the term: a summary it holds becomes a fact; a
    /// term known to have none adds nothing, and nothing goes out.
    pub fn record_cached(&mut self, term: String, cached: Option<String>)
        ensures
            final(self).failed == old(self).failed,
            match cached {
                Some(summary) => final(self).facts@ == old(self).facts@.push(BrandFact { term, summary }),
                None => final(self).facts@ == old(self).facts@,
            },
    {
        if let Some(summary) = cached {
            self.facts.push(BrandFact { term, summary });
        }
    }

    /// A lookup came back. An answer, summary or none, is what the cache
    /// keeps (returned) and a summary becomes a fact; a failure keeps nothing
    /// and is counted, and the batch goes on without it.
    pub fn record_lookup(&mut self, term: String, outcome: Result<Option<String>, AiError>) -> (to_cache: Option<
        Option<String>,
    >)
        requires
            old(self).failed < usize::MAX,
        ensures
            match outcome {
                Ok(answer) => {
                    &&& to_cache == Some(answer)
                    &&& final(self).failed == old(self).failed
                    &&& match answer {
                        Some(summary) => final(self).facts@ == old(self).facts@.push(BrandFact { term, summary }),
                        None => final(self).facts@ == old(self).facts@,
                    }
                },
                Err(_) => {
                    &&& to_cache is None
                    &&& final(self).failed == old(self).failed + 1
                    &&& final(self).facts@ == old(self).facts@
                },
            },
    {
        match outcome {
            Ok(Some(summary)) => {
                let kept = summary.clone();
                self.facts.push(BrandFact { term, summary });
                Some(Some(kept))
            },
            Ok(None) => Some(None),
            Err(_) => {
                self.failed = self.failed + 1;
                None
            },
        }
    }
}

/// The fields of the search engine's answer that are read.
#[derive(Debug, Clone, PartialEq, Eq)]
pub struct SearchAnswer {
    /// The kind of thing found (`Entity`), when the engine says.
    pub entity: Option<String>,
    /// The summary (`AbstractText`).
    pub abstract_text: Option<String>,
}

/// The fields of a Wikipedia page summary that are read.
#[derive(Debug, Clone, PartialEq, Eq)]
pub struct WikipediaSummary {
    /// `standard`, `disambiguation`, ...
    pub page_type: Option<String>,
    /// The one-line description written for this purpose.
    pub description: Option<String>,
    /// The first paragraph.
    pub extract: Option<String>,
}

// ---------------------------------------------------------------------------
// Specification
// ---------------------------------------------------------------------------

/// Words that show that the movement carries the name of a person or of a
/// payer, not of a shop.
pub open spec fn person_markers() -> Seq<&'static str> {
    seq![
        "bizum", "transferencia", "transf", "traspaso", "favor de", "nomina", "nómina", "alquiler",
        "hipoteca",
    ]
}

/// Kinds of thing that answer what is being asked.
pub open spec fn business_entities() -> Seq<&'static str> {
    seq![
        "company", "business", "organization", "organisation", "brand", "restaurant", "retail",
        "bank", "store", "shop", "chain", "airline", "hotel", "supermarket", "insurance",
        "software", "website",
    ]
}

/// Words a business is described with, in English and in Spanish.
pub open spec fn business_words() -> Seq<&'static str> {
    seq![
        "company", "companies", "chain", "chains", "retailer", "retailers", "retail",
        "supermarket", "supermarkets", "hypermarket", "store", "stores", "shop", "shops", "brand",
        "restaurant", "restaurants", "bank", "airline", "airlines", "hotel", "hotels", "insurer",
        "insurance", "business", "firm", "manufacturer", "corporation", "startup", "marketplace",
        "cadena", "cadenas", "empresa", "empresas", "compañía", "compania", "tienda", "tiendas",
        "supermercado", "supermercados", "hipermercado", "hipermercados", "banco", "aerolínea",
        "aerolinea", "restaurante", "restaurantes", "franquicia", "cooperativa", "distribución",
        "distribucion", "multinacional", "fabricante", "aseguradora", "gasolinera", "perfumería",
        "perfumerías", "comercio", "marca",
    ]
}

pub open spec fn mentions_a_person(haystack: Seq<char>) -> bool {
    exists|k: int| 0 <= k < person_markers().len() && contains_seq(haystack, #[trigger] person_markers()[k]@)
}

pub open spec fn has_ascii_digit(s: Seq<char>) -> bool {
    exists|i: int| 0 <= i < s.len() && ascii_digit(#[trigger] s[i])
}

/// The term under which a merchant may be looked up outside, if any: the
/// pattern trimmed and in lower case, 3 to 40 characters, no digit, at most
/// three words, and nothing in the movement that points at a person.
pub open spec fn searchable(pattern: Seq<char>, description: Seq<char>) -> Option<Seq<char>> {
    let term = unicode_lowercase_text(trim(pattern));
    if term.len() < 3 || term.len() > 40 {
        None
    } else if has_ascii_digit(term) {
        None
    } else if words_of(term).len() > 3 {
        None
    } else if mentions_a_person(normalized_description(description) + seq![' '] + term) {
        None
    } else {
        Some(term)
    }
}

pub open spec fn is_business_word(t: Seq<char>) -> bool {
    exists|k: int| 0 <= k < business_words().len() && #[trigger] business_words()[k]@ == t
}

/// Whether a kind of thing, as the search engine names it, is a business.
pub open spec fn is_business_entity(entity: Seq<char>) -> bool {
    let e = unicode_lowercase_text(trim(entity));
    e.len() > 0 && exists|k: int|
        0 <= k < business_entities().len() && contains_seq(e, #[trigger] business_entities()[k]@)
}

/// Whether a summary describes a business: one of its whole words says so.
pub open spec fn describes_business(summary: Seq<char>) -> bool {
    let tokens = split_on_space(normalized_description(summary));
    exists|i: int| 0 <= i < tokens.len() && is_business_word(#[trigger] tokens[i])
}

/// First position from `i` on where `needle` occurs in `hay`.
pub open spec fn find_from(hay: Seq<char>, needle: Seq<char>, i: int) -> Option<int>
    decreases hay.len() - i,
{
    if i < 0 || i + needle.len() > hay.len() {
        None
    } else if hay.subrange(i, i + needle.len()) == needle {
        Some(i)
    } else if i >= hay.len() {
        None
    } else {
        find_from(hay, needle, i + 1)
    }
}

/// `s` without its trailing dots (`trim_end_matches('.')`).
pub open spec fn strip_trailing_dots(s: Seq<char>) -> Seq<char>
    decreases s.len(),
{
    if s.len() > 0 && s.last() == '.' {
        strip_trailing_dots(s.drop_last())
    } else {
        s
    }
}

/// The first 200 characters of `s`.
pub open spec fn first_200(s: Seq<char>) -> Seq<char> {
    if s.len() <= 200 {
        s
    } else {
        s.take(200)
    }
}

/// The first sentence of a summary, enough to know what a merchant does;
/// the whole summary when that sentence is cut short by an abbreviation.
/// Whitespace runs become single spaces; at most 200 characters; no
/// surrounding spaces and no final dots.
pub open spec fn condensed(abstract_text: Seq<char>) -> Option<Seq<char>> {
    let text = join_with(words_of(abstract_text), ' ');
    if text.len() == 0 {
        None
    } else {
        let first = match find_from(text, seq!['.', ' '], 0) {
            Some(e) => text.take(e),
            None => text,
        };
        let chosen = if first.len() < 40 {
            text
        } else {
            first
        };
        let c = strip_trailing_dots(trim(first_200(chosen)));
        if c.len() == 0 {
            None
        } else {
            Some(c)
        }
    }
}

/// The text of an optional field, empty when absent.
pub open spec fn field_text(s: Option<String>) -> Seq<char> {
    match s {
        Some(t) => t@,
        None => Seq::empty(),
    }
}

/// The summary to keep from the search engine's answer, if it is of a
/// business: by its kind when the engine gives one, by its words otherwise.
pub open spec fn answer_summary(entity: Seq<char>, abstract_text: Seq<char>) -> Option<Seq<char>> {
    let e = trim(entity);
    match condensed(abstract_text) {
        None => None,
        Some(summary) => {
            let accepted = if e.len() == 0 {
                describes_business(summary)
            } else {
                is_business_entity(e)
            };
            if accepted {
                Some(summary)
            } else {
                None
            }
        },
    }
}

pub open spec fn standard_page() -> Seq<char> {
    seq!['s', 't', 'a', 'n', 'd', 'a', 'r', 'd']
}

/// The summary to keep from a Wikipedia page, if it is an unambiguous page
/// about a business: its one-line description, or the condensed extract when
/// the page has none.
pub open spec fn wikipedia_summary(
    page_type: Option<Seq<char>>,
    description: Seq<char>,
    extract: Seq<char>,
) -> Option<Seq<char>> {
    if page_type != Some(standard_page()) {
        None
    } else {
        let d = trim(description);
        let summary = if d.len() == 0 {
            condensed(extract)
        } else {
            Some(d)
        };
        match summary {
            None => None,
            Some(s) => if describes_business(s) {
                Some(s)
            } else {
                None
            },
        }
    }
}

/// A word of a title: its first character in upper case.
pub open spec fn title_word(w: Seq<char>) -> Seq<char> {
    if w.len() == 0 {
        w
    } else {
        unicode_uppercase(w[0]) + w.drop_first()
    }
}

/// `leroy merlin` -> `Leroy_Merlin`.
pub open spec fn wikipedia_title_of(term: Seq<char>) -> Seq<char> {
    join_with(words_of(term).map_values(|w: Seq<char>| title_word(w)), '_')
}

/// Bytes that travel in a URL as they are.
pub open spec fn unreserved(b: u8) -> bool {
    (65 <= b <= 90) || (97 <= b <= 122) || (48 <= b <= 57) || b == 45 || b == 95 || b == 46 || b == 126
}

/// Upper-case hexadecimal digit of `n` (0 to 15).
pub open spec fn hex_digit(n: int) -> char {
    if n < 10 {
        (48 + n) as char
    } else {
        (55 + n) as char
    }
}

pub open spec fn percent_byte(b: u8) -> Seq<char> {
    if unreserved(b) {
        seq![b as char]
    } else {
        seq!['%', hex_digit((b / 16) as int), hex_digit((b % 16) as int)]
    }
}

/// `bytes` percent-encoded, byte by byte.
pub open spec fn percent_encoded(bytes: Seq<u8>) -> Seq<char>
    decreases bytes.len(),
{
    if bytes.len() == 0 {
        Seq::empty()
    } else {
        percent_encoded(bytes.drop_last()) + percent_byte(bytes.last())
    }
}

// ---------------------------------------------------------------------------
// Executable
// ---------------------------------------------------------------------------

fn mentions_a_person_exec(haystack: &Vec<char>) -> (r: bool)
    ensures
        r == mentions_a_person(haystack@),
{
    let markers: Vec<&str> = vec![
        "bizum", "transferencia", "transf", "traspaso", "favor de", "nomina", "nómina", "alquiler",
        "hipoteca",
    ];
    assert(markers@ == person_markers());
    let mut k: usize = 0;
    while k < markers.len()
        invariant
            k <= markers.len(),
            markers@ == person_markers(),
            forall|j: int| 0 <= j < k ==> !contains_seq(haystack@, #[trigger] person_markers()[j]@),
        decreases markers.len() - k,
    {
        let m = chars_of(markers[k]);
        if contains_chars(haystack, &m) {
            return true;
        }
        k = k + 1;
    }
    false
}

fn has_ascii_digit_exec(s: &Vec<char>) -> (r: bool)
    ensures
        r == has_ascii_digit(s@),
{
    let mut i: usize = 0;
    while i < s.len()
        invariant
            i <= s.len(),
            forall|j: int| 0 <= j < i ==> !ascii_digit(#[trigger] s@[j]),
        decreases s.len() - i,
    {
        if '0' <= s[i] && s[i] <= '9' {
            return true;
        }
        i = i + 1;
    }
    false
}

/// Decides whether a merchant may be looked up outside, and under which
/// term. `None` when it may not: everything that leaves the machine passes
/// through here, so in doubt nothing leaves.
pub fn searchable_term(pattern: &str, description: &str) -> (r: Option<String>)
    ensures
        match r {
            Some(t) => searchable(pattern@, description@) == Some(t@),
            None => searchable(pattern@, description@) is None,
        },
{
    let trimmed = string_from_chars(&trimmed_chars(pattern));
    let term = lowercase_str(trimmed.as_str());
    let chars = chars_of(term.as_str());
    if chars.len() < 3 || chars.len() > 40 {
        return None;
    }
    // A token with digits is a reference, a card number or an amount glued
    // to the description; never a brand a search engine knows.
    if has_ascii_digit_exec(&chars) {
        return None;
    }
    let words = words_exec(&chars);
    assert(char_views(words@).len() == words@.len());
    if words.len() > 3 {
        return None;
    }
    let normalized = normalize_description(description);
    let mut haystack = chars_of(normalized.as_str());
    haystack.push(' ');
    let ghost head = haystack@;
    assert(head =~= normalized_description(description@) + seq![' ']);
    let mut i: usize = 0;
    while i < chars.len()
        invariant
            i <= chars.len(),
            haystack@ == head + chars@.take(i as int),
        decreases chars.len() - i,
    {
        haystack.push(chars[i]);
        assert(head + chars@.take(i + 1) =~= (head + chars@.take(i as int)).push(chars@[i as int]));
        i = i + 1;
    }
    assert(chars@.take(chars.len() as int) =~= chars@);
    assert(haystack@ =~= normalized_description(description@) + seq![' '] + term@);
    if mentions_a_person_exec(&haystack) {
        return None;
    }
    Some(term)
}

fn is_business_word_exec(t: &Vec<char>) -> (r: bool)
    ensures
        r == is_business_word(t@),
{
    let words: Vec<&str> = vec![
        "company", "companies", "chain", "chains", "retailer", "retailers", "retail",
        "supermarket", "supermarkets", "hypermarket", "store", "stores", "shop", "shops", "brand",
        "restaurant", "restaurants", "bank", "airline", "airlines", "hotel", "hotels", "insurer",
        "insurance", "business", "firm", "manufacturer", "corporation", "startup", "marketplace",
        "cadena", "cadenas", "empresa", "empresas", "compañía", "compania", "tienda", "tiendas",
        "supermercado", "supermercados", "hipermercado", "hipermercados", "banco", "aerolínea",
        "aerolinea", "restaurante", "restaurantes", "franquicia", "cooperativa", "distribución",
        "distribucion", "multinacional", "fabricante", "aseguradora", "gasolinera", "perfumería",
        "perfumerías", "comercio", "marca",
    ];
    assert(words@ == business_words());
    let mut k: usize = 0;
    while k < words.len()
        invariant
            k <= words.len(),
            words@ == business_words(),
            forall|j: int| 0 <= j < k ==> #[trigger] business_words()[j]@ != t@,
        decreases words.len() - k,
    {
        let w = chars_of(words[k]);
        if same_chars(&w, t) {
            return true;
        }
        k = k + 1;
    }
    false
}

/// Whether a kind of thing, as the search engine names it, is a business.
fn is_a_business(entity: &str) -> (r: bool)
    ensures
        r == is_business_entity(entity@),
{
    let trimmed = string_from_chars(&trimmed_chars(entity));
    let lowered = lowercase_str(trimmed.as_str());
    let e = chars_of(lowered.as_str());
    if e.len() == 0 {
        return false;
    }
    let kinds: Vec<&str> = vec![
        "company", "business", "organization", "organisation", "brand", "restaurant", "retail",
        "bank", "store", "shop", "chain", "airline", "hotel", "supermarket", "insurance",
        "software", "website",
    ];
    assert(kinds@ == business_entities());
    let mut k: usize = 0;
    while k < kinds.len()
        invariant
            k <= kinds.len(),
            kinds@ == business_entities(),
            e@ == unicode_lowercase_text(trim(entity@)),
            e@.len() > 0,
            forall|j: int| 0 <= j < k ==> !contains_seq(e@, #[trigger] business_entities()[j]@),
        decreases kinds.len() - k,
    {
        let kind = chars_of(kinds[k]);
        if contains_chars(&e, &kind) {
            assert(business_entities()[k as int]@ == kind@);
            return true;
        }
        k = k + 1;
    }
    false
}

/// Whether a summary describes a business. Whole words are compared, not
/// pieces: "empresario" describes a person and contains "empresa".
fn describes_a_business(summary: &str) -> (r: bool)
    ensures
        r == describes_business(summary@),
{
    let normalized = normalize_description(summary);
    let chars = chars_of(normalized.as_str());
    let tokens = crate::learning::split_on_space_exec(&chars);
    let ghost ts = split_on_space(normalized_description(summary@));
    assert(crate::learning::views(tokens@).len() == tokens.len());
    let mut i: usize = 0;
    while i < tokens.len()
        invariant
            i <= tokens.len(),
            crate::learning::views(tokens@) == ts,
            ts == split_on_space(normalized_description(summary@)),
            ts.len() == tokens.len(),
            forall|j: int| 0 <= j < i ==> !is_business_word(#[trigger] ts[j]),
        decreases tokens.len() - i,
    {
        assert(crate::learning::views(tokens@)[i as int] == tokens@[i as int]@);
        if is_business_word_exec(&tokens[i]) {
            assert(is_business_word(ts[i as int]));
            return true;
        }
        i = i + 1;
    }
    false
}

fn find_from_exec(hay: &Vec<char>, needle: &Vec<char>) -> (r: Option<usize>)
    ensures
        match r {
            Some(e) => find_from(hay@, needle@, 0) == Some(e as int),
            None => find_from(hay@, needle@, 0) is None,
        },
{
    let mut i: usize = 0;
    while i < hay.len() && (needle.len() <= hay.len() - i)
        invariant
            i <= hay.len(),
            find_from(hay@, needle@, 0) == find_from(hay@, needle@, i as int),
        decreases hay.len() - i,
    {
        if crate::text::occurs_at_exec(hay, needle, i) {
            return Some(i);
        }
        i = i + 1;
    }
    proof {
        if i + needle.len() <= hay.len() {
            // i == hay.len(), so the needle is empty and occurs right here.
            assert(hay@.subrange(i as int, i as int) =~= needle@);
        }
    }
    if needle.len() <= hay.len() - i {
        return Some(i);
    }
    None
}

fn copy_prefix(v: &Vec<char>, n: usize) -> (r: Vec<char>)
    requires
        n <= v.len(),
    ensures
        r@ == v@.take(n as int),
{
    let mut out: Vec<char> = Vec::new();
    let mut i: usize = 0;
    while i < n
        invariant
            i <= n <= v.len(),
            out@ == v@.take(i as int),
        decreases n - i,
    {
        out.push(v[i]);
        assert(v@.take(i + 1) =~= v@.take(i as int).push(v@[i as int]));
        i = i + 1;
    }
    out
}

/// `trim` of a character vector.
fn trim_chars(v: &Vec<char>) -> (r: Vec<char>)
    ensures
        r@ == trim(v@),
{
    let s = string_from_chars(v);
    trimmed_chars(s.as_str())
}

/// The first sentence of a summary (see `condensed`).
fn condense(abstract_text: &str) -> (r: Option<String>)
    ensures
        match r {
            Some(s) => condensed(abstract_text@) == Some(s@),
            None => condensed(abstract_text@) is None,
        },
{
    let chars = chars_of(abstract_text);
    let words = words_exec(&chars);
    let text = join_exec(&words, ' ');
    if text.len() == 0 {
        return None;
    }
    let separator: Vec<char> = vec!['.', ' '];
    assert(separator@ == seq!['.', ' ']);
    let first = match find_from_exec(&text, &separator) {
        Some(e) => {
            proof {
                lemma_find_from_in_range(text@, separator@, 0);
            }
            copy_prefix(&text, e)
        },
        None => copy_prefix(&text, text.len()),
    };
    assert(text@.take(text@.len() as int) =~= text@);
    let chosen = if first.len() < 40 {
        copy_prefix(&text, text.len())
    } else {
        first
    };
    let cut = if chosen.len() <= 200 {
        copy_prefix(&chosen, chosen.len())
    } else {
        copy_prefix(&chosen, 200)
    };
    assert(chosen@.take(chosen@.len() as int) =~= chosen@);
    let mut c = trim_chars(&cut);
    while c.len() > 0 && c[c.len() - 1] == '.'
        invariant
            strip_trailing_dots(c@) == strip_trailing_dots(trim(first_200(chosen@))),
        decreases c.len(),
    {
        let ghost before = c@;
        c.pop();
        assert(c@ =~= before.drop_last());
    }
    if c.len() == 0 {
        return None;
    }
    Some(string_from_chars(&c))
}

proof fn lemma_find_from_in_range(hay: Seq<char>, needle: Seq<char>, i: int)
    ensures
        find_from(hay, needle, i) matches Some(e) ==> i <= e && e + needle.len() <= hay.len(),
    decreases hay.len() - i,
{
    if !(i < 0 || i + needle.len() > hay.len()) && hay.subrange(i, i + needle.len()) != needle && i
        < hay.len() {
        lemma_find_from_in_range(hay, needle, i + 1);
    }
}

/// The text of an optional field, empty when absent.
fn field_or_empty(s: &Option<String>) -> (r: &str)
    ensures
        r@ == field_text(*s),
{
    match s {
        Some(t) => t.as_str(),
        None => {
            let e = "";
            proof {
                reveal_strlit("");
            }
            assert(e@ =~= Seq::<char>::empty());
            e
        },
    }
}

/// Reads the search engine's answer: its summary, if it is of a business.
pub fn read_answer(answer: &SearchAnswer) -> (r: Option<String>)
    ensures
        match r {
            Some(s) => answer_summary(field_text(answer.entity), field_text(answer.abstract_text))
                == Some(s@),
            None => answer_summary(field_text(answer.entity), field_text(answer.abstract_text)) is None,
        },
{
    let entity = string_from_chars(&trimmed_chars(field_or_empty(&answer.entity)));
    let summary = match condense(field_or_empty(&answer.abstract_text)) {
        Some(s) => s,
        None => return None,
    };
    let accepted = if entity.as_str().is_empty() {
        describes_a_business(summary.as_str())
    } else {
        is_a_business(entity.as_str())
    };
    if accepted {
        Some(summary)
    } else {
        None
    }
}

/// Reads a Wikipedia page summary: what it says, if it is an unambiguous
/// page about a business. A disambiguation page does not say whether the
/// charge is of a sports shop or of an athletics event.
pub fn read_wikipedia(page: &WikipediaSummary) -> (r: Option<String>)
    ensures
        match r {
            Some(s) => wikipedia_summary(
                match page.page_type {
                    Some(t) => Some(t@),
                    None => None,
                },
                field_text(page.description),
                field_text(page.extract),
            ) == Some(s@),
            None => wikipedia_summary(
                match page.page_type {
                    Some(t) => Some(t@),
                    None => None,
                },
                field_text(page.description),
                field_text(page.extract),
            ) is None,
        },
{
    let standard: Vec<char> = vec!['s', 't', 'a', 'n', 'd', 'a', 'r', 'd'];
    assert(standard@ == standard_page());
    match &page.page_type {
        Some(t) => {
            let kind = chars_of(t.as_str());
            if !same_chars(&kind, &standard) {
                return None;
            }
        },
        None => return None,
    }
    let description = trimmed_chars(field_or_empty(&page.description));
    let summary = if description.len() == 0 {
        match condense(field_or_empty(&page.extract)) {
            Some(s) => s,
            None => return None,
        }
    } else {
        string_from_chars(&description)
    };
    if describes_a_business(summary.as_str()) {
        Some(summary)
    } else {
        None
    }
}

/// `leroy merlin` -> `Leroy_Merlin`: Wikipedia titles capitalise every word
/// and join the words with underscores.
pub fn wikipedia_title(term: &str) -> (r: String)
    ensures
        r@ == wikipedia_title_of(term@),
{
    let chars = chars_of(term);
    let words = words_exec(&chars);
    let mut titled: Vec<Vec<char>> = Vec::new();
    let mut k: usize = 0;
    while k < words.len()
        invariant
            k <= words.len(),
            char_views(titled@) == char_views(words@).take(k as int).map_values(
                |w: Seq<char>| title_word(w),
            ),
        decreases words.len() - k,
    {
        let word = &words[k];
        let mut t: Vec<char> = Vec::new();
        if word.len() > 0 {
            t = to_uppercase(word[0]);
            let ghost head = t@;
            let mut i: usize = 1;
            while i < word.len()
                invariant
                    1 <= i <= word.len(),
                    t@ == head + word@.subrange(1, i as int),
                decreases word.len() - i,
            {
                t.push(word[i]);
                assert(head + word@.subrange(1, i + 1) =~= (head + word@.subrange(1, i as int)).push(
                    word@[i as int],
                ));
                i = i + 1;
            }
            assert(word@.subrange(1, word@.len() as int) =~= word@.drop_first());
        } else {
            assert(t@ =~= word@);
        }
        assert(t@ == title_word(word@));
        let ghost before = char_views(titled@);
        let ghost all = char_views(words@);
        titled.push(t);
        assert(char_views(titled@) =~= before.push(title_word(word@)));
        assert(all[k as int] == word@);
        assert(all.take(k + 1).map_values(|w: Seq<char>| title_word(w)) =~= all.take(k as int).map_values(
            |w: Seq<char>| title_word(w),
        ).push(title_word(all[k as int])));
        assert(char_views(titled@) =~= char_views(words@).take(k + 1).map_values(
            |w: Seq<char>| title_word(w),
        ));
        k = k + 1;
    }
    assert(char_views(words@).take(words.len() as int) =~= char_views(words@));
    let joined = join_exec(&titled, '_');
    string_from_chars(&joined)
}

fn hex_digit_exec(n: u8) -> (c: char)
    requires
        n < 16,
    ensures
        c == hex_digit(n as int),
{
    if n < 10 {
        ((n + 48) as u8) as char
    } else {
        ((n + 55) as u8) as char
    }
}

/// Encodes a title for a URL path: a brand may carry accents and the path
/// has to be ASCII.
pub fn percent_encode(value: &str) -> (r: String)
    ensures
        r@ == percent_encoded(vstd::utf8::encode_utf8(value@)),
{
    let bytes = value.as_bytes();
    let ghost b = bytes@;
    let mut encoded = String::new();
    let mut i: usize = 0;
    assert(b.take(0) =~= Seq::<u8>::empty());
    while i < bytes.len()
        invariant
            i <= bytes.len(),
            b == bytes@,
            encoded@ == percent_encoded(b.take(i as int)),
        decreases bytes.len() - i,
    {
        let byte = bytes[i];
        assert(b.take(i + 1).drop_last() =~= b.take(i as int));
        assert(b.take(i + 1).last() == byte);
        if (65 <= byte && byte <= 90) || (97 <= byte && byte <= 122) || (48 <= byte && byte <= 57)
            || byte == 45 || byte == 95 || byte == 46 || byte == 126 {
            push_char(&mut encoded, byte as char);
        } else {
            let ghost before = encoded@;
            push_char(&mut encoded, '%');
            push_char(&mut encoded, hex_digit_exec(byte / 16));
            push_char(&mut encoded, hex_digit_exec(byte % 16));
            assert(encoded@ =~= before + percent_byte(byte));
        }
        i = i + 1;
    }
    assert(b.take(i as int) =~= b);
    encoded
}

/// Where the Wikipedia summary of a term is asked for.
pub fn wikipedia_url(term: &str) -> (r: String)
    ensures
        r@ == WIKIPEDIA_ENDPOINT@ + percent_encoded(vstd::utf8::encode_utf8(wikipedia_title_of(term@))),
{
    let title = wikipedia_title(term);
    let encoded = percent_encode(title.as_str());
    let mut url = string_from_str(WIKIPEDIA_ENDPOINT);
    push_str(&mut url, encoded.as_str());
    url
}

/// Whether the second source has to be asked: only when the first did not
/// answer with a summary.
pub fn needs_second_source(search: &Result<Option<String>, AiError>) -> (r: bool)
    ensures
        r == !(search matches Ok(Some(_))),
{
    match search {
        Ok(Some(_)) => false,
        _ => true,
    }
}

/// What a lookup answers, from what each source said. `Ok(None)` is "asked
/// and nothing useful", which is stored too so as not to ask again. A failure
/// of the first source does not lose the lookup: the error only comes out
/// when the second one fails as well.
pub fn lookup_outcome(
    search: Result<Option<String>, AiError>,
    wikipedia: Option<Result<Option<String>, AiError>>,
) -> (r: Result<Option<String>, AiError>)
    requires
        (search matches Ok(Some(_))) || wikipedia is Some,
    ensures
        match search {
            Ok(Some(s)) => r == Ok::<Option<String>, AiError>(Some(s)),
            Ok(None) => r == wikipedia->0,
            Err(e) => match wikipedia->0 {
                Ok(w) => r == Ok::<Option<String>, AiError>(w),
                Err(_) => r == Err::<Option<String>, AiError>(e),
            },
        },
{
    match search {
        Ok(Some(s)) => Ok(Some(s)),
        Ok(None) => match wikipedia {
            Some(w) => w,
            None => Ok(None),
        },
        Err(search_error) => match wikipedia {
            Some(Ok(w)) => Ok(w),
            Some(Err(_)) => Err(search_error),
            None => Err(search_error),
        },
    }
}

// ---------------------------------------------------------------------------
// Laws
// ---------------------------------------------------------------------------

/// Only the merchant token can leave the machine: a term that may be looked
/// up is the pattern itself, trimmed and in lower case, between 3 and 40
/// characters, without digits; the description only decides whether it may.
pub proof fn lemma_only_the_token_leaves(pattern: Seq<char>, description: Seq<char>)
    ensures
        searchable(pattern, description) matches Some(t) ==> {
            &&& t == unicode_lowercase_text(trim(pattern))
            &&& 3 <= t.len() <= 40
            &&& !has_ascii_digit(t)
            &&& words_of(t).len() <= 3
        },
{
}

proof fn lemma_contains_in_prefix(a: Seq<char>, b: Seq<char>, needle: Seq<char>)
    requires
        contains_seq(a, needle),
    ensures
        contains_seq(a + b, needle),
{
    let at = choose|at: int| crate::text::occurs_at(a, needle, at);
    assert((a + b).subrange(at, at + needle.len()) =~= a.subrange(at, at + needle.len()));
    assert(crate::text::occurs_at(a + b, needle, at));
}

/// Nothing leaves when the movement smells of a person: if its normalised
/// description names a transfer, a Bizum, a payroll, a rent or a mortgage,
/// no term may be looked up.
pub proof fn lemma_people_are_never_looked_up(pattern: Seq<char>, description: Seq<char>)
    requires
        mentions_a_person(normalized_description(description)),
    ensures
        searchable(pattern, description) is None,
{
    let term = unicode_lowercase_text(trim(pattern));
    let k = choose|k: int|
        0 <= k < person_markers().len() && contains_seq(
            normalized_description(description),
            #[trigger] person_markers()[k]@,
        );
    lemma_contains_in_prefix(
        normalized_description(description),
        seq![' '] + term,
        person_markers()[k]@,
    );
    assert(normalized_description(description) + seq![' '] + term =~= normalized_description(
        description,
    ) + (seq![' '] + term));
}

} // verus!
