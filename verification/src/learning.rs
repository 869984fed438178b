//! Learning rule patterns from the user's manual corrections.
use vstd::prelude::*;

use crate::domain::{normalize_description, normalized_description};
use crate::rules::is_blank;
use crate::text::{chars_of, contains_seq, join_with, occurs_at, same_chars, string_from_chars, trim};

verus! {

/// Bytes that `c` takes in UTF-8.
pub open spec fn utf8_width(c: char) -> nat {
    if (c as int) < 0x80 {
        1
    } else if (c as int) < 0x800 {
        2
    } else if (c as int) < 0x10000 {
        3
    } else {
        4
    }
}

/// Length in bytes of the UTF-8 encoding of `s` (`str::len`).
pub open spec fn utf8_len(s: Seq<char>) -> nat
    decreases s.len(),
{
    if s.len() == 0 {
        0
    } else {
        utf8_len(s.drop_last()) + utf8_width(s.last())
    }
}

/// The pieces of `s` between single spaces (`str::split(' ')`): always at
/// least one piece, empty pieces included.
pub open spec fn split_on_space(s: Seq<char>) -> Seq<Seq<char>>
    decreases s.len(),
{
    if s.len() == 0 {
        seq![Seq::empty()]
    } else {
        let parts = split_on_space(s.drop_last());
        if s.last() == ' ' {
            parts.push(Seq::empty())
        } else {
            parts.update(parts.len() - 1, parts.last().push(s.last()))
        }
    }
}

/// Words that appear in almost every bank description and identify nobody.
pub open spec fn noise_words() -> Seq<&'static str> {
    seq![
        "compra", "compras", "tarj", "tarjeta", "pago", "pagos", "recibo", "recibos", "domiciliado",
        "domiciliacion", "transferencia", "transf", "adeudo", "cargo", "abono", "ingreso", "efectivo",
        "operacion", "movimiento", "concepto", "ref", "referencia", "mandato", "orden", "favor",
        "cuenta", "banco", "oficina", "comision", "liquidacion", "fecha", "importe", "del", "de", "la",
        "el", "los", "las", "en", "por", "para", "con", "sin", "sl", "sa", "sau", "slu", "sociedad",
        "card", "payment", "purchase", "direct", "debit", "credit", "transfer", "from", "the", "and",
        "ltd", "llc", "inc", "plc", "gmbh", "dd", "sepa", "bizum", "atm",
    ]
}

pub open spec fn is_noise(t: Seq<char>) -> bool {
    exists|i: int| 0 <= i < noise_words().len() && noise_words()[i]@ == t
}

pub open spec fn all_ascii_digits(t: Seq<char>) -> bool {
    forall|i: int| 0 <= i < t.len() ==> '0' <= #[trigger] t[i] && t[i] <= '9'
}

/// A word that can identify a merchant: three bytes or more, not only
/// digits, not noise.
pub open spec fn is_candidate(t: Seq<char>) -> bool {
    utf8_len(t) >= 3 && !all_ascii_digits(t) && !is_noise(t)
}

/// Position of the first candidate word of `tokens` at or after `from`.
pub open spec fn first_candidate_from(tokens: Seq<Seq<char>>, from: int) -> Option<int>
    decreases tokens.len() - from,
{
    if from < 0 || from >= tokens.len() {
        None
    } else if is_candidate(tokens[from]) {
        Some(from)
    } else {
        first_candidate_from(tokens, from + 1)
    }
}

/// The pattern a text suggests: its first candidate word, joined to the word
/// right after it when the first is shorter than five bytes and that next word
/// is a candidate too. The pattern is thus a piece of the normalised text.
pub open spec fn significant_token_of(text: Seq<char>) -> Option<Seq<char>> {
    let tokens = split_on_space(normalized_description(text));
    match first_candidate_from(tokens, 0) {
        None => None,
        Some(i) => if utf8_len(tokens[i]) < 5 && i + 1 < tokens.len() && is_candidate(tokens[i + 1]) {
            Some(tokens[i] + seq![' '] + tokens[i + 1])
        } else {
            Some(tokens[i])
        },
    }
}

/// The first candidate found from `from` on stands at or after `from`, is a
/// candidate, and no word before it from `from` on is one.
proof fn lemma_first_candidate(tokens: Seq<Seq<char>>, from: int)
    requires
        0 <= from,
    ensures
        match first_candidate_from(tokens, from) {
            Some(i) => from <= i < tokens.len() && is_candidate(tokens[i]),
            None => true,
        },
    decreases tokens.len() - from,
{
    if from < tokens.len() && !is_candidate(tokens[from]) {
        lemma_first_candidate(tokens, from + 1);
    }
}

/// Splitting on single spaces and joining again with single spaces gives the
/// text back.
proof fn lemma_split_joins(s: Seq<char>)
    ensures
        split_on_space(s).len() >= 1,
        join_with(split_on_space(s), ' ') == s,
    decreases s.len(),
{
    if s.len() > 0 {
        let prev = s.drop_last();
        lemma_split_joins(prev);
        let parts = split_on_space(prev);
        if s.last() == ' ' {
            let now = parts.push(Seq::<char>::empty());
            assert(now.drop_last() =~= parts);
            assert(join_with(now, ' ') =~= prev.push(' '));
            assert(prev.push(' ') =~= s);
        } else {
            let now = parts.update(parts.len() - 1, parts.last().push(s.last()));
            if parts.len() == 1 {
                assert(join_with(now, ' ') == now[0]);
                assert(now[0] =~= s);
            } else {
                assert(now.drop_last() =~= parts.drop_last());
                assert(join_with(now, ' ') =~= join_with(parts.drop_last(), ' ').push(' ') + parts.last().push(
                    s.last(),
                ));
                let head = join_with(parts.drop_last(), ' ').push(' ');
                assert(join_with(parts, ' ') == head + parts.last());
                assert(head + parts.last().push(s.last()) =~= (head + parts.last()).push(s.last()));
                assert(prev.push(s.last()) =~= s);
                assert(join_with(now, ' ') =~= s);
            }
        }
    }
}

/// A joined text ends with its last part.
proof fn lemma_join_ends_with_last(parts: Seq<Seq<char>>, sep: char)
    requires
        parts.len() >= 1,
    ensures
        join_with(parts, sep).len() >= parts.last().len(),
        join_with(parts, sep).subrange(
            join_with(parts, sep).len() - parts.last().len(),
            join_with(parts, sep).len() as int,
        ) == parts.last(),
{
    let j = join_with(parts, sep);
    if parts.len() > 1 {
        let head = join_with(parts.drop_last(), sep).push(sep);
        assert(j == head + parts.last());
        assert(j.subrange(head.len() as int, j.len() as int) =~= parts.last());
    } else {
        assert(j.subrange(0, j.len() as int) =~= j);
    }
}

/// Each part of a joined text, and each part followed by the separator and
/// the next part, occurs in the joined text.
proof fn lemma_join_contains_parts(parts: Seq<Seq<char>>, sep: char)
    ensures
        forall|i: int| 0 <= i < parts.len() ==> contains_seq(join_with(parts, sep), #[trigger] parts[i]),
        forall|i: int|
            0 <= i < parts.len() - 1 ==> contains_seq(
                join_with(parts, sep),
                #[trigger] parts[i] + seq![sep] + parts[i + 1],
            ),
    decreases parts.len(),
{
    let j = join_with(parts, sep);
    if parts.len() == 1 {
        assert(occurs_at(j, parts[0], 0)) by {
            assert(j.subrange(0, parts[0].len() as int) =~= parts[0]);
        }
    } else if parts.len() > 1 {
        let q = parts.drop_last();
        let jq = join_with(q, sep);
        lemma_join_contains_parts(q, sep);
        lemma_join_ends_with_last(q, sep);
        assert(j == jq.push(sep) + parts.last());
        let last_at: int = jq.len() as int + 1;
        assert forall|i: int| 0 <= i < parts.len() implies contains_seq(j, #[trigger] parts[i]) by {
            if i == parts.len() - 1 {
                assert(j.subrange(last_at, last_at + parts[i].len()) =~= parts[i]);
                assert(occurs_at(j, parts[i], last_at));
            } else {
                assert(q[i] == parts[i]);
                let at = choose|at: int| #[trigger] occurs_at(jq, q[i], at);
                assert(j.subrange(at, at + parts[i].len()) =~= jq.subrange(at, at + parts[i].len()));
                assert(occurs_at(j, parts[i], at));
            }
        }
        assert forall|i: int| 0 <= i < parts.len() - 1 implies contains_seq(
            j,
            #[trigger] parts[i] + seq![sep] + parts[i + 1],
        ) by {
            let pair = parts[i] + seq![sep] + parts[i + 1];
            if i == parts.len() - 2 {
                let at = jq.len() - q.last().len();
                assert(q.last() == parts[i]);
                assert(jq.subrange(at, jq.len() as int) == parts[i]);
                assert(j.subrange(at, at + pair.len()) =~= pair);
                assert(occurs_at(j, pair, at));
            } else {
                assert(q[i] == parts[i] && q[i + 1] == parts[i + 1]);
                let qpair = q[i] + seq![sep] + q[i + 1];
                assert(contains_seq(jq, qpair));
                let at = choose|at: int| #[trigger] occurs_at(jq, qpair, at);
                assert(j.subrange(at, at + pair.len()) =~= jq.subrange(at, at + pair.len()));
                assert(occurs_at(j, pair, at));
            }
        }
    }
}

/// The pattern a text suggests is a piece of its normalised form, so a rule
/// that looks for it catches the movement it was learned from.
pub proof fn lemma_pattern_occurs_in_the_text(text: Seq<char>)
    ensures
        significant_token_of(text) matches Some(p) ==> contains_seq(normalized_description(text), p),
{
    let n = normalized_description(text);
    let tokens = split_on_space(n);
    lemma_split_joins(n);
    lemma_join_contains_parts(tokens, ' ');
    lemma_first_candidate(tokens, 0);
    if let Some(i) = first_candidate_from(tokens, 0) {
        assert(contains_seq(n, tokens[i]));
        if i + 1 < tokens.len() {
            assert(contains_seq(n, tokens[i] + seq![' '] + tokens[i + 1]));
        }
    }
}

/// The pattern suggested by a movement: the counterparty's when it is not
/// blank and suggests one, otherwise the description's.
pub open spec fn suggested_pattern(description: Seq<char>, counterparty: Option<Seq<char>>) -> Option<
    Seq<char>,
> {
    match counterparty {
        Some(c) => if trim(c).len() > 0 && significant_token_of(c) is Some {
            significant_token_of(c)
        } else {
            significant_token_of(description)
        },
        None => significant_token_of(description),
    }
}

/// The pattern suggested by a movement is a piece of its normalised
/// description or of its normalised counterparty, so the learned rule's
/// pattern is drawn from the movement's own text.
pub proof fn lemma_suggested_pattern_occurs(description: Seq<char>, counterparty: Option<Seq<char>>)
    ensures
        suggested_pattern(description, counterparty) matches Some(p) ==> contains_seq(
            normalized_description(description),
            p,
        ) || (counterparty matches Some(c) && contains_seq(normalized_description(c), p)),
{
    lemma_pattern_occurs_in_the_text(description);
    if let Some(c) = counterparty {
        lemma_pattern_occurs_in_the_text(c);
    }
}

/// Bank boilerplate: words that appear in almost every description and name
/// no merchant. A pattern that began with one of them would file half the
/// account under one category.
pub open spec fn bank_boilerplate() -> Seq<&'static str> {
    seq![
        "compra", "compras", "tarj", "tarjeta", "pago", "pagos", "recibo", "recibos", "domiciliado",
        "domiciliacion", "transferencia", "transf", "adeudo", "cargo", "abono", "ingreso", "efectivo",
        "operacion", "movimiento", "concepto", "ref", "referencia", "mandato", "orden", "favor",
        "cuenta", "banco", "oficina", "comision", "liquidacion", "fecha", "importe", "del", "de", "la",
        "el", "los", "las", "en", "por", "para", "con", "sin", "sl", "sa", "sau", "slu", "sociedad",
        "card", "payment", "purchase", "direct", "debit", "credit", "transfer", "from", "the", "and",
        "ltd", "llc", "inc", "plc", "gmbh", "dd", "sepa", "bizum", "atm",
    ]
}

/// The part of `s` before its first space.
pub open spec fn before_first_space(s: Seq<char>) -> Seq<char>
    decreases s.len(),
{
    if s.len() == 0 {
        s
    } else if s[0] == ' ' {
        Seq::empty()
    } else {
        seq![s[0]] + before_first_space(s.drop_first())
    }
}

/// No piece of a text split on spaces holds a space.
proof fn lemma_split_pieces_have_no_space(s: Seq<char>)
    ensures
        forall|k: int, j: int|
            0 <= k < split_on_space(s).len() && 0 <= j < split_on_space(s)[k].len() ==> #[trigger] split_on_space(
                s,
            )[k][j] != ' ',
    decreases s.len(),
{
    if s.len() > 0 {
        lemma_split_pieces_have_no_space(s.drop_last());
        let parts = split_on_space(s.drop_last());
        let now = split_on_space(s);
        assert forall|k: int, j: int| 0 <= k < now.len() && 0 <= j < now[k].len() implies #[trigger] now[k][j] != ' ' by {
            lemma_split_joins(s.drop_last());
            if s.last() == ' ' {
                if k < parts.len() {
                    assert(now[k] == parts[k]);
                    assert(split_on_space(s.drop_last())[k][j] != ' ');
                }
            } else if k < parts.len() - 1 {
                assert(now[k] == parts[k]);
                assert(split_on_space(s.drop_last())[k][j] != ' ');
            } else {
                assert(now[k] == parts[k].push(s.last()));
                if j < parts[k].len() {
                    assert(now[k][j] == parts[k][j]);
                    assert(split_on_space(s.drop_last())[k][j] != ' ');
                }
            }
        }
    }
}

/// The words before the first space of `w`, `w + " " + u`, when `w` holds no
/// space, is `w` itself.
proof fn lemma_before_first_space(w: Seq<char>, u: Seq<char>)
    requires
        forall|j: int| 0 <= j < w.len() ==> w[j] != ' ',
    ensures
        before_first_space(w) == w,
        before_first_space(w + seq![' '] + u) == w,
    decreases w.len(),
{
    if w.len() > 0 {
        let rest = w.drop_first();
        lemma_before_first_space(rest, u);
        assert((w + seq![' '] + u).drop_first() =~= rest + seq![' '] + u);
        assert(seq![w[0]] + rest =~= w);
    } else {
        assert((w + seq![' '] + u)[0] == ' ');
    }
}

/// A pattern drawn from a text never starts with bank boilerplate or a bare
/// number: its first word, the part before any space, is none of those words,
/// is not empty and holds something other than an ASCII digit.
pub proof fn lemma_pattern_is_no_boilerplate(text: Seq<char>)
    ensures
        significant_token_of(text) matches Some(p) ==> {
            &&& forall|k: int|
                0 <= k < bank_boilerplate().len() ==> before_first_space(p) != #[trigger] bank_boilerplate()[k]@
            &&& before_first_space(p).len() >= 1
            &&& exists|j: int|
                0 <= j < before_first_space(p).len() && !('0' <= #[trigger] before_first_space(p)[j] && before_first_space(
                    p,
                )[j] <= '9')
        },
{
    assert(bank_boilerplate() =~= noise_words());
    let tokens = split_on_space(normalized_description(text));
    lemma_first_candidate(tokens, 0);
    lemma_split_pieces_have_no_space(normalized_description(text));
    if let Some(i) = first_candidate_from(tokens, 0) {
        let first = tokens[i];
        assert(forall|j: int| 0 <= j < first.len() ==> first[j] != ' ') by {
            assert forall|j: int| 0 <= j < first.len() implies first[j] != ' ' by {
                assert(tokens[i][j] != ' ');
            }
        }
        let rest: Seq<char> = if i + 1 < tokens.len() { tokens[i + 1] } else { Seq::empty() };
        lemma_before_first_space(first, rest);
        assert(!is_noise(first));
        assert(!all_ascii_digits(first));
        if first.len() == 0 {
            assert(utf8_len(first) == 0);
        }
        assert forall|k: int| 0 <= k < bank_boilerplate().len() implies first != #[trigger] bank_boilerplate()[k]@ by {
            assert(noise_words()[k] == bank_boilerplate()[k]);
        }
    }
}

/// The pattern suggested by a movement, from its counterparty or from its
/// description, never starts with bank boilerplate.
pub proof fn lemma_suggested_pattern_is_no_boilerplate(description: Seq<char>, counterparty: Option<Seq<char>>)
    ensures
        suggested_pattern(description, counterparty) matches Some(p) ==> {
            &&& forall|k: int|
                0 <= k < bank_boilerplate().len() ==> before_first_space(p) != #[trigger] bank_boilerplate()[k]@
            &&& before_first_space(p).len() >= 1
            &&& exists|j: int|
                0 <= j < before_first_space(p).len() && !('0' <= #[trigger] before_first_space(p)[j] && before_first_space(
                    p,
                )[j] <= '9')
        },
{
    lemma_pattern_is_no_boilerplate(description);
    if let Some(c) = counterparty {
        lemma_pattern_is_no_boilerplate(c);
    }
}

fn utf8_width_exec(c: char) -> (r: usize)
    ensures
        r == utf8_width(c),
{
    let v = c as u32;
    if v < 0x80 {
        1
    } else if v < 0x800 {
        2
    } else if v < 0x10000 {
        3
    } else {
        4
    }
}

/// Byte length of the UTF-8 encoding of `t`.
fn utf8_len_exec(t: &Vec<char>) -> (r: u128)
    ensures
        r == utf8_len(t@),
{
    let mut total: u128 = 0;
    let mut i: usize = 0;
    while i < t.len()
        invariant
            i <= t.len(),
            total == utf8_len(t@.take(i as int)),
            total <= 4 * i,
        decreases t.len() - i,
    {
        assert(t@.take(i + 1).drop_last() =~= t@.take(i as int));
        total = total + utf8_width_exec(t[i]) as u128;
        i = i + 1;
    }
    assert(t@.take(t.len() as int) =~= t@);
    total
}

fn is_noise_exec(t: &Vec<char>) -> (r: bool)
    ensures
        r == is_noise(t@),
{
    let words: Vec<&str> = vec![
        "compra", "compras", "tarj", "tarjeta", "pago", "pagos", "recibo", "recibos", "domiciliado",
        "domiciliacion", "transferencia", "transf", "adeudo", "cargo", "abono", "ingreso", "efectivo",
        "operacion", "movimiento", "concepto", "ref", "referencia", "mandato", "orden", "favor",
        "cuenta", "banco", "oficina", "comision", "liquidacion", "fecha", "importe", "del", "de", "la",
        "el", "los", "las", "en", "por", "para", "con", "sin", "sl", "sa", "sau", "slu", "sociedad",
        "card", "payment", "purchase", "direct", "debit", "credit", "transfer", "from", "the", "and",
        "ltd", "llc", "inc", "plc", "gmbh", "dd", "sepa", "bizum", "atm",
    ];
    assert(words@ == noise_words());
    let mut i: usize = 0;
    while i < words.len()
        invariant
            i <= words.len(),
            words@ == noise_words(),
            forall|j: int| 0 <= j < i ==> noise_words()[j]@ != t@,
        decreases words.len() - i,
    {
        let w = chars_of(words[i]);
        if same_chars(&w, t) {
            return true;
        }
        i = i + 1;
    }
    false
}

fn all_ascii_digits_exec(t: &Vec<char>) -> (r: bool)
    ensures
        r == all_ascii_digits(t@),
{
    let mut i: usize = 0;
    while i < t.len()
        invariant
            i <= t.len(),
            forall|j: int| 0 <= j < i ==> '0' <= #[trigger] t@[j] && t@[j] <= '9',
        decreases t.len() - i,
    {
        if !('0' <= t[i] && t[i] <= '9') {
            return false;
        }
        i = i + 1;
    }
    true
}

fn is_candidate_exec(t: &Vec<char>) -> (r: bool)
    ensures
        r == is_candidate(t@),
{
    utf8_len_exec(t) >= 3 && !all_ascii_digits_exec(t) && !is_noise_exec(t)
}

/// The views of a list of character vectors.
pub open spec fn views(v: Seq<Vec<char>>) -> Seq<Seq<char>> {
    v.map_values(|x: Vec<char>| x@)
}

/// The pieces of `text` between single spaces.
pub(crate) fn split_on_space_exec(text: &Vec<char>) -> (r: Vec<Vec<char>>)
    ensures
        views(r@) == split_on_space(text@),
{
    let mut done: Vec<Vec<char>> = Vec::new();
    let mut current: Vec<char> = Vec::new();
    let mut i: usize = 0;
    assert(split_on_space(text@.take(0)) =~= seq![Seq::<char>::empty()]);
    while i < text.len()
        invariant
            i <= text.len(),
            views(done@).push(current@) == split_on_space(text@.take(i as int)),
        decreases text.len() - i,
    {
        let c = text[i];
        let ghost before = split_on_space(text@.take(i as int));
        assert(text@.take(i + 1).drop_last() =~= text@.take(i as int));
        if c == ' ' {
            let finished = current;
            done.push(finished);
            current = Vec::new();
            assert(views(done@).push(current@) =~= before.push(Seq::<char>::empty()));
        } else {
            current.push(c);
            assert(views(done@).push(current@) =~= before.update(
                before.len() - 1,
                before.last().push(c),
            ));
        }
        i = i + 1;
    }
    assert(text@.take(text.len() as int) =~= text@);
    let last = current;
    done.push(last);
    assert(views(done@) =~= split_on_space(text@));
    done
}

/// `first` and `second` joined by one space.
fn joined_with_space(first: &Vec<char>, second: &Vec<char>) -> (r: Vec<char>)
    ensures
        r@ == first@ + seq![' '] + second@,
{
    let mut joined: Vec<char> = Vec::new();
    let mut i: usize = 0;
    while i < first.len()
        invariant
            i <= first.len(),
            joined@ == first@.take(i as int),
        decreases first.len() - i,
    {
        joined.push(first[i]);
        assert(first@.take(i + 1) =~= first@.take(i as int).push(first@[i as int]));
        i = i + 1;
    }
    joined.push(' ');
    let ghost head = joined@;
    let mut j: usize = 0;
    while j < second.len()
        invariant
            j <= second.len(),
            joined@ == head + second@.take(j as int),
        decreases second.len() - j,
    {
        joined.push(second[j]);
        assert(head + second@.take(j + 1) =~= (head + second@.take(j as int)).push(second@[j as int]));
        j = j + 1;
    }
    assert(first@.take(first.len() as int) =~= first@);
    assert(second@.take(second.len() as int) =~= second@);
    assert(joined@ =~= first@ + seq![' '] + second@);
    joined
}

/// The pattern a text suggests, if any word of it can identify a merchant.
fn significant_token(text: &str) -> (r: Option<String>)
    ensures
        match r {
            Some(s) => significant_token_of(text@) == Some(s@),
            None => significant_token_of(text@) is None,
        },
{
    let normalized = normalize_description(text);
    let chars = chars_of(normalized.as_str());
    let tokens = split_on_space_exec(&chars);
    let ghost all = views(tokens@);
    let mut i: usize = 0;
    while i < tokens.len() && !is_candidate_exec(&tokens[i])
        invariant
            i <= tokens.len(),
            all == views(tokens@),
            all.len() == tokens.len(),
            first_candidate_from(all, 0) == first_candidate_from(all, i as int),
        decreases tokens.len() - i,
    {
        assert(all[i as int] == tokens@[i as int]@);
        i = i + 1;
    }
    if i == tokens.len() {
        return None;
    }
    assert(all[i as int] == tokens@[i as int]@);
    let first = &tokens[i];
    if utf8_len_exec(first) < 5 && i + 1 < tokens.len() && is_candidate_exec(&tokens[i + 1]) {
        assert(all[i + 1] == tokens@[i + 1]@);
        let joined = joined_with_space(first, &tokens[i + 1]);
        Some(string_from_chars(&joined))
    } else {
        proof {
            if i + 1 < tokens.len() {
                assert(all[i + 1] == tokens@[i + 1]@);
            }
        }
        Some(string_from_chars(first))
    }
}

/// Proposes the pattern of a rule from the description of a movement that
/// the user has just categorised by hand: the first word that really
/// identifies the merchant, skipping noise and numbers.
pub fn suggest_pattern(description: &str, counterparty: Option<&str>) -> (r: Option<String>)
    ensures
        match r {
            Some(s) => suggested_pattern(description@, match counterparty {
                Some(c) => Some(c@),
                None => None,
            }) == Some(s@),
            None => suggested_pattern(description@, match counterparty {
                Some(c) => Some(c@),
                None => None,
            }) is None,
        },
        r matches Some(p) ==> if counterparty matches Some(c) && trim(c@).len() > 0
            && significant_token_of(c@) is Some {
            contains_seq(normalized_description(counterparty.unwrap()@), p@)
        } else {
            contains_seq(normalized_description(description@), p@)
        },
{
    proof {
        lemma_pattern_occurs_in_the_text(description@);
        if let Some(c) = counterparty {
            lemma_pattern_occurs_in_the_text(c@);
        }
    }
    if let Some(value) = counterparty {
        if !is_blank(value) {
            if let Some(pattern) = significant_token(value) {
                return Some(pattern);
            }
        }
    }
    significant_token(description)
}

} // verus!
