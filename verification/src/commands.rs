//! What the application's commands decide around the core: the error the
//! interface receives, where the database lives, and which merchants go to
//! the model in a batch and how its answers are shown.
use vstd::prelude::*;

use crate::ai::{AiError, Suggestion, CONFIDENT_SUGGESTION};
use crate::csv_statement::ImportError;
use crate::domain::{Category, CategoryId, TransactionId};
use crate::grouping::PendingGroup;
use crate::money::Money;
use crate::storage::StorageError;
use crate::text::{str_eq, string_from_chars, string_from_str, trim, trimmed_chars};

verus! {

/// Name of the database file inside the application's data directory.
pub const DATABASE_FILE: &'static str = "moneywatcher.db";

/// Environment variable that replaces the application's data directory, to
/// run the app against a database other than the personal one.
pub const DATA_DIRECTORY_ENV: &'static str = "MONEYWATCHER_DATA_DIR";

/// Distinct merchants sent to the model at once.
pub const SUGGESTION_BATCH: usize = 25;

/// The error that crosses to the interface: a stable `code` to decide what
/// to show, and a message.
#[derive(Debug, Clone, PartialEq, Eq)]
pub struct CommandError {
    pub code: &'static str,
    pub message: String,
}

pub open spec fn storage_error_code(e: StorageError) -> Seq<char> {
    match e {
        StorageError::NotFound { .. } => "not_found"@,
        StorageError::CorruptValue { .. } => "corrupt_data"@,
        StorageError::Migration { .. } => "migration_failed"@,
        StorageError::Sqlite { .. } => "database_error"@,
    }
}

pub open spec fn import_error_code(e: ImportError) -> Seq<char> {
    match e {
        ImportError::Empty => "import_empty"@,
        ImportError::HeaderNotFound => "import_header_not_found"@,
        ImportError::NoValidRows => "import_no_rows"@,
        ImportError::Csv(_) | ImportError::Excel(_) => "import_malformed"@,
    }
}

pub open spec fn ai_error_code(e: AiError) -> Seq<char> {
    match e {
        AiError::Disabled => "ai_disabled"@,
        AiError::Unreachable { .. } => "ai_unreachable"@,
        AiError::UnusableAnswer => "ai_unusable_answer"@,
    }
}

impl CommandError {
    pub fn new(code: &'static str, message: String) -> (r: CommandError)
        ensures
            r.code == code,
            r.message == message,
    {
        CommandError { code, message }
    }

    /// The shared state is poisoned: another thread panicked while holding
    /// the database and there is no way to go on with guarantees.
    pub fn poisoned() -> (r: CommandError)
        ensures
            r.code@ == "state_poisoned"@,
            r.message@ == "the database lock was poisoned by a previous failure; restart the app"@,
    {
        CommandError::new(
            "state_poisoned",
            string_from_str("the database lock was poisoned by a previous failure; restart the app"),
        )
    }

    /// The error of a storage failure.
    pub fn from_storage(error: &StorageError) -> (r: CommandError)
        ensures
            r.code@ == storage_error_code(*error),
            r.message@ == crate::storage::storage_error_text(*error),
    {
        let code = match error {
            StorageError::NotFound { .. } => "not_found",
            StorageError::CorruptValue { .. } => "corrupt_data",
            StorageError::Migration { .. } => "migration_failed",
            StorageError::Sqlite { .. } => "database_error",
        };
        CommandError::new(code, error.message())
    }

    /// The error of an assistant failure.
    /// The error of a statement that could not be read, with a stable code
    /// for the interface.
    pub fn from_import(error: &ImportError) -> (r: CommandError)
        ensures
            r.code@ == import_error_code(*error),
            r.message@ == crate::csv_statement::import_error_text(*error),
    {
        let code = match error {
            ImportError::Empty => "import_empty",
            ImportError::HeaderNotFound => "import_header_not_found",
            ImportError::NoValidRows => "import_no_rows",
            ImportError::Csv(_) => "import_malformed",
            ImportError::Excel(_) => "import_malformed",
        };
        CommandError::new(code, error.message())
    }

    pub fn from_ai(error: &AiError) -> (r: CommandError)
        ensures
            r.code@ == ai_error_code(*error),
            r.message@ == crate::ai::ai_error_text(*error),
    {
        let code = match error {
            AiError::Disabled => "ai_disabled",
            AiError::Unreachable { .. } => "ai_unreachable",
            AiError::UnusableAnswer => "ai_unusable_answer",
        };
        CommandError::new(code, error.message())
    }
}

/// Where the data lives, for the settings screen.
#[derive(Debug, Clone, PartialEq, Eq)]
pub struct AppInfo {
    pub database_path: String,
    pub database_size_bytes: u64,
    pub schema_version: i64,
    pub accounts: usize,
    pub transactions: i64,
}

/// State of the brand lookup, with how much was already asked.
#[derive(Debug, Clone, Copy, PartialEq, Eq, Structural)]
pub struct BrandLookupStatus {
    pub enabled: bool,
    pub cached_terms: i64,
}

/// The data directory: the one the environment names, when it names one,
/// otherwise the system's.
pub open spec fn data_directory(override_value: Option<Seq<char>>, system_directory: Seq<char>) -> Seq<
    char,
> {
    match override_value {
        Some(v) if trim(v).len() > 0 => trim(v),
        _ => system_directory,
    }
}

/// Chooses the data directory between the system's and the one forced by
/// the environment. An empty variable counts as absent: exporting it without
/// a value would open the database in the working directory.
pub fn resolve_data_directory(override_value: Option<&str>, system_directory: String) -> (r: String)
    ensures
        r@ == data_directory(
            match override_value {
                Some(v) => Some(v@),
                None => None,
            },
            system_directory@,
        ),
{
    match override_value {
        Some(value) => {
            let trimmed = trimmed_chars(value);
            if trimmed.len() > 0 {
                string_from_chars(&trimmed)
            } else {
                system_directory
            }
        },
        None => system_directory,
    }
}

// ---------------------------------------------------------------------------
// Suggestion batches
// ---------------------------------------------------------------------------

/// A suggestion ready for the review tray.
#[derive(Debug, Clone, PartialEq, Eq)]
pub struct SuggestionView {
    pub transaction_id: TransactionId,
    pub description: String,
    pub category_id: CategoryId,
    pub category_name: String,
    /// Shown with the suggestion: sign and amount show at a glance when a
    /// suggestion makes no sense.
    pub amount: Money,
    pub confidence: u8,
    /// The model is not sure: the interface sets it apart.
    pub needs_review: bool,
    /// Pattern the rule would learn if accepted; it identifies the group.
    pub pattern: String,
    /// Pending movements this suggestion files at once.
    pub transaction_count: usize,
}

/// The merchants of one batch, as positions among the groups, and how many
/// are left without asking after it.
#[derive(Debug, Clone, PartialEq, Eq)]
pub struct BatchPlan {
    pub batch: Vec<usize>,
    pub remaining: usize,
}

pub open spec fn pattern_views(groups: Seq<PendingGroup>) -> Seq<Seq<char>> {
    groups.map_values(|g: PendingGroup| g.pattern@)
}

pub open spec fn text_views(v: Seq<String>) -> Seq<Seq<char>> {
    v.map_values(|s: String| s@)
}

/// Positions of the groups not asked about yet, in order.
pub open spec fn fresh_positions(patterns: Seq<Seq<char>>, skip: Seq<Seq<char>>) -> Seq<int>
    decreases patterns.len(),
{
    if patterns.len() == 0 {
        Seq::empty()
    } else {
        let before = fresh_positions(patterns.drop_last(), skip);
        if skip.contains(patterns.last()) {
            before
        } else {
            before.push(patterns.len() - 1)
        }
    }
}

/// The first `SUGGESTION_BATCH` fresh groups, and how many fresh ones remain.
pub open spec fn batch_of(patterns: Seq<Seq<char>>, skip: Seq<Seq<char>>) -> (Seq<int>, int) {
    let fresh = fresh_positions(patterns, skip);
    if fresh.len() <= SUGGESTION_BATCH {
        (fresh, 0)
    } else {
        (fresh.take(SUGGESTION_BATCH as int), fresh.len() - SUGGESTION_BATCH)
    }
}

/// The patterns of the groups at `positions`.
pub open spec fn patterns_at(patterns: Seq<Seq<char>>, positions: Seq<int>) -> Seq<Seq<char>> {
    positions.map_values(|i: int| patterns[i])
}

proof fn lemma_fresh_positions_facts(patterns: Seq<Seq<char>>, skip: Seq<Seq<char>>)
    ensures
        forall|k: int|
            0 <= k < fresh_positions(patterns, skip).len() ==> {
                let p = #[trigger] fresh_positions(patterns, skip)[k];
                0 <= p < patterns.len() && !skip.contains(patterns[p])
            },
        forall|k: int, l: int|
            0 <= k < l < fresh_positions(patterns, skip).len() ==> #[trigger] fresh_positions(patterns, skip)[k]
                < #[trigger] fresh_positions(patterns, skip)[l],
    decreases patterns.len(),
{
    if patterns.len() > 0 {
        let prefix = patterns.drop_last();
        lemma_fresh_positions_facts(prefix, skip);
        assert forall|k: int| 0 <= k < fresh_positions(prefix, skip).len() implies patterns[
            fresh_positions(prefix, skip)[k]] == prefix[fresh_positions(prefix, skip)[k]] by {}
    }
}

/// The fresh positions among the first `i` groups are the first of all the
/// fresh positions.
proof fn lemma_fresh_positions_prefix(patterns: Seq<Seq<char>>, skip: Seq<Seq<char>>, i: int)
    requires
        0 <= i <= patterns.len(),
    ensures
        fresh_positions(patterns.take(i), skip).len() <= fresh_positions(patterns, skip).len(),
        fresh_positions(patterns.take(i), skip) == fresh_positions(patterns, skip).take(
            fresh_positions(patterns.take(i), skip).len() as int,
        ),
    decreases patterns.len(),
{
    if i == patterns.len() {
        assert(patterns.take(i) =~= patterns);
        assert(fresh_positions(patterns, skip).take(fresh_positions(patterns, skip).len() as int)
            =~= fresh_positions(patterns, skip));
    } else {
        let prefix = patterns.drop_last();
        assert(prefix.take(i) =~= patterns.take(i));
        lemma_fresh_positions_prefix(prefix, skip, i);
        let f = fresh_positions(patterns, skip);
        let g = fresh_positions(prefix, skip);
        let h = fresh_positions(patterns.take(i), skip);
        assert(g.take(h.len() as int) == h);
        if skip.contains(patterns.last()) {
            assert(f == g);
        } else {
            assert(f == g.push(patterns.len() - 1));
            assert(f.take(h.len() as int) =~= g.take(h.len() as int));
        }
    }
}

/// How far the fresh positions of the first `i` groups are walked past,
/// once the first `n` fresh ones have been asked about.
pub open spec fn walked(patterns: Seq<Seq<char>>, skip: Seq<Seq<char>>, n: int, i: int) -> Seq<int> {
    let fi = fresh_positions(patterns.take(i), skip);
    fi.skip(if n < fi.len() { n } else { fi.len() as int })
}

proof fn lemma_walk_prefix(patterns: Seq<Seq<char>>, skip: Seq<Seq<char>>, n: int, i: int)
    requires
        patterns.no_duplicates(),
        0 <= n <= fresh_positions(patterns, skip).len(),
        0 <= i <= patterns.len(),
    ensures
        fresh_positions(patterns.take(i), skip + patterns_at(patterns, fresh_positions(patterns, skip).take(n)))
            == walked(patterns, skip, n, i),
    decreases i,
{
    let fresh = fresh_positions(patterns, skip);
    let batch = fresh.take(n);
    let asked = patterns_at(patterns, batch);
    let both = skip + asked;
    lemma_fresh_positions_facts(patterns, skip);
    if i == 0 {
        assert(patterns.take(0) =~= Seq::<Seq<char>>::empty());
        assert(fresh_positions(patterns.take(0), both) =~= walked(patterns, skip, n, 0));
    } else {
        let j = i - 1;
        lemma_walk_prefix(patterns, skip, n, j);
        let before = patterns.take(j);
        let after = patterns.take(i);
        assert(after.drop_last() =~= before);
        assert(after.last() == patterns[j]);
        lemma_fresh_positions_prefix(patterns, skip, j);
        lemma_fresh_positions_prefix(patterns, skip, i);
        let fi = fresh_positions(before, skip);
        let fj = fresh_positions(after, skip);
        let m = fi.len() as int;
        if skip.contains(patterns[j]) {
            assert(both.contains(patterns[j])) by {
                let a = choose|a: int| 0 <= a < skip.len() && skip[a] == patterns[j];
                assert(both[a] == patterns[j]);
            }
            assert(fj == fi);
        } else {
            assert(fj == fi.push(j));
            assert(fresh[m] == j) by {
                assert(fj == fresh.take(fj.len() as int));
                assert(fj[m] == j);
            }
            if m < n {
                assert(asked[m] == patterns[j]) by {
                    assert(batch[m] == fresh[m]);
                }
                assert(both[skip.len() + m] == patterns[j]);
                assert(both.contains(patterns[j]));
                assert(fj.skip(m + 1) =~= fi.skip(m));
            } else {
                assert(!both.contains(patterns[j])) by {
                    if both.contains(patterns[j]) {
                        let a = choose|a: int| 0 <= a < both.len() && both[a] == patterns[j];
                        if a < skip.len() {
                            assert(skip[a] == patterns[j]);
                        } else {
                            let k = a - skip.len();
                            assert(asked[k] == patterns[batch[k]]);
                            assert(batch[k] == fresh[k]);
                            assert(patterns[fresh[k]] == patterns[j]);
                            assert(fresh[k] == j);
                            assert(fresh[k] < fresh[m]);
                        }
                    }
                }
                assert(fj.skip(n) =~= fi.skip(n).push(j));
            }
        }
    }
}

/// Asking about a batch and then skipping its patterns as well walks on to
/// the fresh groups right after it: among distinct patterns, the groups
/// still fresh are exactly those that came after the batch, so successive
/// calls cover the whole history and never ask twice about a merchant.
pub proof fn lemma_successive_batches_walk_the_history(patterns: Seq<Seq<char>>, skip: Seq<Seq<char>>)
    requires
        patterns.no_duplicates(),
    ensures
        ({
            let (batch, remaining) = batch_of(patterns, skip);
            let fresh = fresh_positions(patterns, skip);
            &&& forall|k: int|
                0 <= k < batch.len() ==> 0 <= #[trigger] batch[k] < patterns.len() && !skip.contains(
                    patterns[batch[k]],
                )
            &&& batch.len() + remaining == fresh.len()
            &&& fresh_positions(patterns, skip + patterns_at(patterns, batch)) == fresh.skip(batch.len() as int)
        }),
{
    let (batch, remaining) = batch_of(patterns, skip);
    let fresh = fresh_positions(patterns, skip);
    let n = batch.len() as int;
    lemma_fresh_positions_facts(patterns, skip);
    assert(batch == fresh.take(n));
    assert forall|k: int| 0 <= k < batch.len() implies 0 <= #[trigger] batch[k] < patterns.len() && !skip.contains(
        patterns[batch[k]],
    ) by {
        assert(batch[k] == fresh[k]);
    }
    lemma_walk_prefix(patterns, skip, n, patterns.len() as int);
    assert(patterns.take(patterns.len() as int) =~= patterns);
}

fn is_skipped(pattern: &str, skip_patterns: &[String]) -> (r: bool)
    ensures
        r == text_views(skip_patterns@).contains(pattern@),
{
    let mut k: usize = 0;
    while k < skip_patterns.len()
        invariant
            k <= skip_patterns.len(),
            forall|j: int| 0 <= j < k ==> skip_patterns@[j]@ != pattern@,
        decreases skip_patterns.len() - k,
    {
        if str_eq(skip_patterns[k].as_str(), pattern) {
            assert(text_views(skip_patterns@)[k as int] == pattern@);
            return true;
        }
        k = k + 1;
    }
    proof {
        if text_views(skip_patterns@).contains(pattern@) {
            let j = choose|j: int|
                0 <= j < text_views(skip_patterns@).len() && text_views(skip_patterns@)[j] == pattern@;
            assert(skip_patterns@[j]@ == pattern@);
        }
    }
    false
}

/// Which merchants go to the model: the groups not asked about yet
/// (`skip_patterns`, so that successive calls walk the whole history instead
/// of repeating the first batch), at most `SUGGESTION_BATCH` of them, the
/// groups that move the most movements first.
pub fn plan_batch(groups: &[PendingGroup], skip_patterns: &[String]) -> (r: BatchPlan)
    ensures
        r.batch@.map_values(|i: usize| i as int) == batch_of(pattern_views(groups@), text_views(skip_patterns@)).0,
        r.remaining == batch_of(pattern_views(groups@), text_views(skip_patterns@)).1,
{
    let ghost patterns = pattern_views(groups@);
    let ghost skip = text_views(skip_patterns@);
    let mut fresh: Vec<usize> = Vec::new();
    let mut i: usize = 0;
    assert(patterns.take(0) =~= Seq::<Seq<char>>::empty());
    assert(fresh@.map_values(|x: usize| x as int) =~= Seq::<int>::empty());
    while i < groups.len()
        invariant
            i <= groups.len(),
            patterns == pattern_views(groups@),
            skip == text_views(skip_patterns@),
            fresh@.map_values(|x: usize| x as int) == fresh_positions(patterns.take(i as int), skip),
            fresh@.len() <= i,
        decreases groups.len() - i,
    {
        assert(patterns.take(i + 1).drop_last() =~= patterns.take(i as int));
        assert(patterns.take(i + 1).last() == groups@[i as int].pattern@);
        if !is_skipped(groups[i].pattern.as_str(), skip_patterns) {
            let ghost before = fresh@;
            fresh.push(i);
            assert(fresh@.map_values(|x: usize| x as int) =~= before.map_values(|x: usize| x as int).push(
                i as int,
            ));
        }
        i = i + 1;
    }
    assert(patterns.take(i as int) =~= patterns);
    if fresh.len() <= SUGGESTION_BATCH {
        return BatchPlan { batch: fresh, remaining: 0 };
    }
    let remaining = fresh.len() - SUGGESTION_BATCH;
    let mut batch: Vec<usize> = Vec::new();
    let mut k: usize = 0;
    while k < SUGGESTION_BATCH
        invariant
            k <= SUGGESTION_BATCH < fresh.len(),
            batch@ == fresh@.take(k as int),
        decreases SUGGESTION_BATCH - k,
    {
        batch.push(fresh[k]);
        assert(batch@ =~= fresh@.take(k + 1));
        k = k + 1;
    }
    assert(batch@.map_values(|x: usize| x as int) =~= fresh@.map_values(|x: usize| x as int).take(
        SUGGESTION_BATCH as int,
    ));
    BatchPlan { batch, remaining }
}

/// Position of the first category whose name is exactly `name`.
pub open spec fn category_with_name(categories: Seq<Category>, name: Seq<char>) -> Option<int>
    decreases categories.len(),
{
    if categories.len() == 0 {
        None
    } else {
        match category_with_name(categories.drop_last(), name) {
            Some(k) => Some(k),
            None => if categories.last().name@ == name {
                Some(categories.len() - 1)
            } else {
                None
            },
        }
    }
}

/// What is shown of a suggestion: the group's representative, the category,
/// and whether it needs review.
pub open spec fn view_fields(
    s: Suggestion,
    group: PendingGroup,
    category: Category,
    v: SuggestionView,
) -> bool {
    &&& v.transaction_id == group.representative.id
    &&& v.description@ == group.representative.description@
    &&& v.category_id == category.id
    &&& v.category_name@ == category.name@
    &&& v.amount == group.representative.amount
    &&& v.confidence == s.confidence
    &&& v.needs_review == (s.confidence < CONFIDENT_SUGGESTION)
    &&& v.pattern@ == group.pattern@
    &&& v.transaction_count == group.count
}

/// The suggestions that can be shown, in order, as (suggestion, group,
/// category) positions: a suggestion for a merchant outside the batch, or
/// for a category that does not exist, is dropped.
pub open spec fn shown_suggestions(
    suggestions: Seq<Suggestion>,
    batch: Seq<usize>,
    categories: Seq<Category>,
) -> Seq<(int, int, int)>
    decreases suggestions.len(),
{
    if suggestions.len() == 0 {
        Seq::empty()
    } else {
        let before = shown_suggestions(suggestions.drop_last(), batch, categories);
        let s = suggestions.last();
        if s.index >= batch.len() {
            before
        } else {
            match category_with_name(categories, s.category_name@) {
                None => before,
                Some(c) => before.push((suggestions.len() - 1, batch[s.index as int] as int, c)),
            }
        }
    }
}

fn find_category_named(categories: &[Category], name: &str) -> (r: Option<usize>)
    ensures
        match r {
            Some(k) => k < categories.len() && category_with_name(categories@, name@) == Some(k as int),
            None => category_with_name(categories@, name@) is None,
        },
{
    let mut k: usize = 0;
    assert(categories@.take(0) =~= Seq::<Category>::empty());
    while k < categories.len()
        invariant
            k <= categories.len(),
            category_with_name(categories@.take(k as int), name@) is None,
        decreases categories.len() - k,
    {
        assert(categories@.take(k + 1).drop_last() =~= categories@.take(k as int));
        assert(categories@.take(k + 1).last() == categories@[k as int]);
        if str_eq(categories[k].name.as_str(), name) {
            proof {
                lemma_category_with_name_prefix(categories@, name@, k + 1);
            }
            return Some(k);
        }
        k = k + 1;
    }
    assert(categories@.take(k as int) =~= categories@);
    None
}

proof fn lemma_category_with_name_prefix(categories: Seq<Category>, name: Seq<char>, n: int)
    requires
        0 <= n <= categories.len(),
        category_with_name(categories.take(n), name) is Some,
    ensures
        category_with_name(categories, name) == category_with_name(categories.take(n), name),
    decreases categories.len() - n,
{
    if n < categories.len() {
        assert(categories.take(n + 1).drop_last() =~= categories.take(n));
        lemma_category_with_name_prefix(categories, name, n + 1);
    } else {
        assert(categories.take(n) =~= categories);
    }
}

/// The suggestions of a batch as the review tray shows them.
pub fn suggestion_views(
    suggestions: &[Suggestion],
    groups: &[PendingGroup],
    batch: &[usize],
    categories: &[Category],
) -> (r: Vec<SuggestionView>)
    requires
        forall|k: int| 0 <= k < batch@.len() ==> (#[trigger] batch@[k]) < groups@.len(),
    ensures
        r@.len() == shown_suggestions(suggestions@, batch@, categories@).len(),
        forall|k: int|
            0 <= k < r@.len() ==> {
                let e = #[trigger] shown_suggestions(suggestions@, batch@, categories@)[k];
                &&& 0 <= e.0 < suggestions@.len()
                &&& 0 <= e.1 < groups@.len()
                &&& 0 <= e.2 < categories@.len()
                &&& view_fields(suggestions@[e.0], groups@[e.1], categories@[e.2], r@[k])
            },
{
    let mut views: Vec<SuggestionView> = Vec::new();
    let mut i: usize = 0;
    assert(suggestions@.take(0) =~= Seq::<Suggestion>::empty());
    while i < suggestions.len()
        invariant
            i <= suggestions.len(),
            forall|k: int| 0 <= k < batch@.len() ==> (#[trigger] batch@[k]) < groups@.len(),
            views@.len() == shown_suggestions(suggestions@.take(i as int), batch@, categories@).len(),
            forall|k: int|
                0 <= k < views@.len() ==> {
                    let e = #[trigger] shown_suggestions(suggestions@.take(i as int), batch@, categories@)[k];
                    &&& 0 <= e.0 < i
                    &&& 0 <= e.1 < groups@.len()
                    &&& 0 <= e.2 < categories@.len()
                    &&& view_fields(suggestions@[e.0], groups@[e.1], categories@[e.2], views@[k])
                },
        decreases suggestions.len() - i,
    {
        let suggestion = &suggestions[i];
        let ghost before = shown_suggestions(suggestions@.take(i as int), batch@, categories@);
        assert(suggestions@.take(i + 1).drop_last() =~= suggestions@.take(i as int));
        assert(suggestions@.take(i + 1).last() == *suggestion);
        if suggestion.index < batch.len() {
            let g = batch[suggestion.index];
            match find_category_named(categories, suggestion.category_name.as_str()) {
                Some(c) => {
                    let group = &groups[g];
                    let category = &categories[c];
                    let view = SuggestionView {
                        transaction_id: group.representative.id,
                        description: string_from_str(group.representative.description.as_str()),
                        category_id: category.id,
                        category_name: string_from_str(category.name.as_str()),
                        amount: group.representative.amount,
                        confidence: suggestion.confidence,
                        needs_review: !suggestion.is_confident(),
                        pattern: string_from_str(group.pattern.as_str()),
                        transaction_count: group.count,
                    };
                    views.push(view);
                    let ghost now = shown_suggestions(suggestions@.take(i + 1), batch@, categories@);
                    assert(now == before.push((i as int, g as int, c as int)));
                },
                None => {},
            }
        }
        i = i + 1;
    }
    assert(suggestions@.take(i as int) =~= suggestions@);
    views
}

} // verus!
