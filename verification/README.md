# moneywatcher

The core of a local-first personal finance dashboard: bank statements in,
categorised movements and dashboard figures out. Money is always whole minor
units (`i64`), never a float.

The library under `src/` is written in Verus: every function carries a
contract over a mathematical model (sequences, integers, the text of each
string) and the proofs are checked by the verifier. The calls into outside
crates (chrono for calendar arithmetic and parsing, sha2 for fingerprints,
serde_json to check a widget's configuration, csv to split a statement) sit
behind small trusted wrappers whose contracts state what those crates
document.

## Layout

| Module | What it decides |
| --- | --- |
| `money` | parsing bank amounts (`1.234,56`, `(45,00)`, `12,00-`, `EUR 12,00`), decimal text, saturating arithmetic |
| `date`, `dates` | calendar dates; reading statement dates, with the day/month order chosen once per file |
| `decode`, `csv_statement`, `mapping` | statement bytes to text, cells, and which column feeds which field |
| `domain`, `fingerprint` | accounts, categories, rules, movements; the SHA-256 fingerprint that makes imports idempotent |
| `rules`, `learning` | the ordered rule engine and the rules learned from manual corrections |
| `transfers` | pairing the two sides of a transfer between the user's own accounts |
| `storage` | what stored rows read back as, what storing writes, and the shared `WHERE` clause |
| `analytics` | totals, savings rate and category shares in basis points |
| `ai`, `prompt`, `brands`, `grouping`, `commands` | the optional local assistant: what is sent, what is kept of the answer, how batches are planned |

Laws that span functions are public proof functions named `lemma_*`; for
example `transfers::lemma_a_second_run_finds_nothing`,
`storage::lemma_one_parameter_per_criterion`,
`learning::lemma_pattern_occurs_in_the_text` or
`rules::lemma_each_movement_filed_under_its_rule`.

`tests/` runs the library on concrete values. `app/` is a small command-line
program around it: the SQLite database (rusqlite), the HTTP calls to the local
model and to the brand lookups (ureq), and the JSON the interface exchanges
(serde).
