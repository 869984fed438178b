use moneywatcher::date::Date;
use moneywatcher::domain::{AccountId, ImportId, Transaction, TransactionId, TransactionSource};
use moneywatcher::brands::{BrandFact, BrandResolution};
use moneywatcher::ai::{AiError, AiProvider, Suggestion, DEFAULT_OLLAMA_ENDPOINT};
use moneywatcher::brands::{
    lookup_outcome, needs_second_source, percent_encode, read_answer, read_wikipedia, searchable_term,
    wikipedia_title, wikipedia_url, SearchAnswer, WikipediaSummary,
};
use moneywatcher::domain::{Category, CategoryId, CategoryKind};
use moneywatcher::money::Money;
use moneywatcher::prompt::{api_url, availability_endpoint, build, extract_array, plan_suggestions, fits_the_sign, hint_for, select_suggestions, RawSuggestion, SuggestionRequest};

fn movement(description: &str, amount: i64) -> Transaction {
    Transaction {
        id: TransactionId(1),
        account_id: AccountId(1),
        booked_on: Date::from_ymd_opt(2026, 3, 1).unwrap(),
        value_on: None,
        description: description.into(),
        counterparty: None,
        amount: Money::from_minor_units(amount),
        balance_after: None,
        category_id: None,
        notes: None,
        source: TransactionSource::Imported,
        import_id: None,
        fingerprint: "f".into(),
    }
}

fn answer(entity: &str, abstract_text: &str) -> SearchAnswer {
    SearchAnswer { entity: Some(entity.to_string()), abstract_text: Some(abstract_text.to_string()) }
}

fn page(kind: &str, description: &str, extract: &str) -> WikipediaSummary {
    WikipediaSummary {
        page_type: Some(kind.to_string()),
        description: Some(description.to_string()),
        extract: Some(extract.to_string()),
    }
}

#[test]
fn a_merchant_token_is_searchable() {
    assert_eq!(
        searchable_term("mercadona", "COMPRA TARJ. *1234 MERCADONA VALENCIA").as_deref(),
        Some("mercadona")
    );
    assert_eq!(searchable_term("leroy merlin", "COMPRA LEROY MERLIN").as_deref(), Some("leroy merlin"));
}

#[test]
fn nothing_leaves_when_the_movement_smells_of_a_person() {
    assert_eq!(searchable_term("marta", "BIZUM DE MARTA"), None);
    assert_eq!(searchable_term("garcia", "TRANSFERENCIA A FAVOR DE JUAN GARCIA"), None);
    assert_eq!(searchable_term("constructora", "ABONO NOMINA CONSTRUCTORA"), None);
    assert_eq!(searchable_term("propietario", "ALQUILER PROPIETARIO"), None);
}

#[test]
fn references_and_scraps_are_not_searched() {
    assert_eq!(searchable_term("ref4417", "COMPRA REF4417"), None);
    assert_eq!(searchable_term("ab", "COMPRA AB"), None);
    assert_eq!(searchable_term("uno dos tres cuatro", "COMPRA UNO DOS TRES CUATRO EN ALGUN SITIO"), None);
}

#[test]
fn the_term_is_trimmed_and_lowered() {
    assert_eq!(searchable_term("  MERCADONA ", "COMPRA MERCADONA").as_deref(), Some("mercadona"));
}

#[test]
fn keeps_the_first_sentence_of_a_business() {
    let payload = answer("company", "Mercadona is a Spanish supermarket chain. It operates 1,637 stores.");
    assert_eq!(read_answer(&payload).as_deref(), Some("Mercadona is a Spanish supermarket chain"));
}

#[test]
fn without_a_type_the_summary_decides() {
    let business = answer("", "Alcampo is the 2nd biggest hypermarket chain in Spain.");
    let not_a_business = answer("", "Primor is a Hungarian title of nobility of Székely origin.");
    assert_eq!(
        read_answer(&business).as_deref(),
        Some("Alcampo is the 2nd biggest hypermarket chain in Spain")
    );
    assert_eq!(read_answer(&not_a_business), None);
}

#[test]
fn a_type_that_is_not_a_business_closes_the_door() {
    let event = answer("athletics event", "The decathlon is a combined event. Companies sponsor it.");
    assert_eq!(read_answer(&event), None);
}

#[test]
fn a_person_or_a_place_is_not_an_answer() {
    let person = answer("person", "Himilce was the Iberian wife of Hannibal Barca.");
    assert_eq!(read_answer(&person), None);
}

#[test]
fn an_abbreviation_does_not_cut_the_summary_short() {
    let payload = answer(
        "company",
        "Iberdrola, S.A. is a Spanish multinational electric utility company                              based in Bilbao.",
    );
    assert_eq!(
        read_answer(&payload).as_deref(),
        Some("Iberdrola, S.A. is a Spanish multinational electric utility company based in Bilbao")
    );
}

#[test]
fn a_business_without_a_summary_is_not_an_answer() {
    assert_eq!(read_answer(&answer("company", "")), None);
    assert_eq!(read_answer(&SearchAnswer { entity: Some("company".into()), abstract_text: None }), None);
}

#[test]
fn wikipedia_answers_with_its_one_line_description() {
    let payload = page(
        "standard",
        "Cadena de electrónica y electrodomésticos",
        "Worten es una cadena portuguesa de establecimientos.",
    );
    assert_eq!(read_wikipedia(&payload).as_deref(), Some("Cadena de electrónica y electrodomésticos"));
}

#[test]
fn an_ambiguous_wikipedia_page_is_not_an_answer() {
    let payload = page("disambiguation", "página de desambiguación de Wikimedia", "Decathlon puede referirse a:");
    assert_eq!(read_wikipedia(&payload), None);
}

#[test]
fn a_person_is_not_a_merchant_even_if_they_run_a_business() {
    let payload = page("standard", "empresario español", "Fue un empresario español.");
    assert_eq!(read_wikipedia(&payload), None);
}

#[test]
fn without_a_description_the_extract_is_condensed() {
    let payload = WikipediaSummary {
        page_type: Some("standard".into()),
        description: None,
        extract: Some("Consum es una cooperativa valenciana de supermercados. Tiene tiendas.".into()),
    };
    assert_eq!(
        read_wikipedia(&payload).as_deref(),
        Some("Consum es una cooperativa valenciana de supermercados")
    );
}

#[test]
fn wikipedia_titles_capitalise_every_word() {
    assert_eq!(wikipedia_title("leroy merlin"), "Leroy_Merlin");
    assert_eq!(wikipedia_title("mercadona"), "Mercadona");
}

#[test]
fn accents_travel_percent_encoded() {
    assert_eq!(percent_encode("Perfumerías"), "Perfumer%C3%ADas");
    assert_eq!(percent_encode("Leroy_Merlin"), "Leroy_Merlin");
}

#[test]
fn the_wikipedia_address_carries_the_encoded_title() {
    assert_eq!(
        wikipedia_url("perfumerías primor"),
        "https://es.wikipedia.org/api/rest_v1/page/summary/Perfumer%C3%ADas_Primor"
    );
}

#[test]
fn a_very_long_summary_is_cut() {
    let long = "x".repeat(400);
    let answer = read_answer(&answer("company", &long)).unwrap();
    assert_eq!(answer.chars().count(), 200);
}

#[test]
fn the_second_source_answers_only_when_the_first_does_not() {
    let found: Result<Option<String>, AiError> = Ok(Some("a chain".into()));
    assert!(!needs_second_source(&found));
    assert_eq!(lookup_outcome(found, None), Ok(Some("a chain".to_string())));

    let nothing: Result<Option<String>, AiError> = Ok(None);
    assert!(needs_second_source(&nothing));
    assert_eq!(lookup_outcome(nothing, Some(Ok(Some("cadena".into())))), Ok(Some("cadena".to_string())));

    let failed: Result<Option<String>, AiError> =
        Err(AiError::Unreachable { endpoint: "a".into(), reason: "b".into() });
    assert_eq!(lookup_outcome(failed.clone(), Some(Ok(None))), Ok(None));
    assert_eq!(lookup_outcome(failed.clone(), Some(Err(AiError::UnusableAnswer))), failed);
}

#[test]
fn disabled_by_default_and_never_uses_the_network() {
    let provider = AiProvider::default();
    assert!(!provider.is_enabled());
    assert!(!provider.leaves_the_machine());
    assert!(matches!(plan_suggestions(&provider, &[]), Err(AiError::Disabled)));
}

#[test]
fn local_ollama_keeps_data_on_the_machine() {
    assert!(!AiProvider::ollama_default().leaves_the_machine());
    assert!(!AiProvider::Ollama { endpoint: "http://localhost:11434".into(), model: "llama3.2".into() }
        .leaves_the_machine());
}

#[test]
fn remote_endpoint_is_flagged_as_leaving_the_machine() {
    assert!(AiProvider::Ollama { endpoint: "https://ollama.example.com".into(), model: "llama3.2".into() }
        .leaves_the_machine());
}

#[test]
fn the_ipv6_loopback_keeps_data_on_the_machine() {
    assert!(!AiProvider::Ollama { endpoint: "http://[::1]:11434".into(), model: "qwen2.5:7b".into() }
        .leaves_the_machine());
    assert!(!AiProvider::Ollama { endpoint: "http://[::1]".into(), model: "qwen2.5:7b".into() }
        .leaves_the_machine());
}

#[test]
fn another_ipv6_host_leaves_the_machine() {
    assert!(AiProvider::Ollama { endpoint: "http://[2001:db8::1]:11434".into(), model: "qwen2.5:7b".into() }
        .leaves_the_machine());
}

#[test]
fn the_default_provider_points_at_the_local_model() {
    match AiProvider::ollama_default() {
        AiProvider::Ollama { endpoint, model } => {
            assert_eq!(endpoint, DEFAULT_OLLAMA_ENDPOINT);
            assert_eq!(model, "qwen2.5:7b");
        }
        AiProvider::Disabled => panic!("the default provider is a model"),
    }
}

#[test]
fn separates_confident_suggestions_from_doubtful_ones() {
    let doubtful = Suggestion { index: 0, category_name: "Otros gastos".into(), confidence: 45 };
    let sure = Suggestion { index: 1, category_name: "Supermercado".into(), confidence: 90 };
    assert!(!doubtful.is_confident());
    assert!(sure.is_confident());
}

#[test]
fn errors_explain_themselves() {
    assert_eq!(AiError::Disabled.message(), "the assistant is disabled");
    assert_eq!(
        AiError::Unreachable { endpoint: "http://x".into(), reason: "timeout".into() }.message(),
        "could not reach the model at http://x: timeout"
    );
}

fn categories() -> Vec<Category> {
    ["Supermercado", "Suministros"]
        .iter()
        .enumerate()
        .map(|(index, name)| Category {
            id: CategoryId(index as i64 + 1),
            name: (*name).to_string(),
            kind: CategoryKind::Expense,
            color: "#000000".into(),
            is_system: true,
        })
        .collect()
}

fn requests() -> Vec<SuggestionRequest> {
    vec![
        SuggestionRequest { description: "COMPRA TARJ MERCADONA".into(), counterparty: None, amount: Money::from_minor_units(-4_512) },
        SuggestionRequest {
            description: "RECIBO IBERDROLA".into(),
            counterparty: Some("IBERDROLA CLIENTES".into()),
            amount: Money::from_minor_units(-7_290),
        },
    ]
}

fn raw(index: usize, category: &str, confidence: Option<u8>) -> RawSuggestion {
    RawSuggestion { index, category: category.to_string(), confidence }
}

#[test]
fn prompt_lists_categories_and_transactions() {
    let prompt = build(&requests(), &categories(), &[]);
    assert!(prompt.contains("- Supermercado: supermarkets"));
    assert!(prompt.contains("- Suministros: power, water"));
    assert!(prompt.contains("0. COMPRA TARJ MERCADONA | amount: -45.12"));
    assert!(prompt.contains("counterparty: IBERDROLA CLIENTES"));
}

#[test]
fn prompt_explains_how_spanish_businesses_are_named() {
    let prompt = build(&requests(), &categories(), &[]);
    for needle in ["CAFETERIA", "ASADOR", "estacion de servicio", "PARKING", "FLORISTERIA"] {
        assert!(prompt.contains(needle), "the prompt names `{needle}`");
    }
}

#[test]
fn prompt_carries_what_was_looked_up_about_merchants() {
    let brands = vec![BrandFact { term: "verdecora".into(), summary: "cadena de jardinería".into() }];
    let prompt = build(&requests(), &categories(), &brands);
    assert!(prompt.contains("- VERDECORA: cadena de jardinería\n"));
    assert!(!build(&requests(), &categories(), &[]).contains("were looked up"));
}

#[test]
fn hints_exist_only_for_built_in_categories() {
    assert!(hint_for("Supermercado").unwrap().starts_with("supermarkets"));
    assert_eq!(hint_for("Mi categoría"), None);
}

#[test]
fn parses_json_wrapped_in_prose_and_code_fences() {
    let text = "Sure! Here you go:\n```json\n[{\"index\":0,\"category\":\"supermercado\",\"confidence\":91}]\n```";
    assert_eq!(
        extract_array(text).as_deref(),
        Some("[{\"index\":0,\"category\":\"supermercado\",\"confidence\":91}]")
    );
    let parsed = select_suggestions(&[raw(0, "supermercado", Some(91))], &requests(), &categories());
    assert_eq!(parsed.len(), 1);
    assert_eq!(parsed[0].category_name, "Supermercado");
    assert_eq!(parsed[0].confidence, 91);
}

#[test]
fn drops_hallucinated_categories_and_out_of_range_indexes() {
    let items = [raw(0, "Crypto moonshots", Some(99)), raw(7, "Supermercado", Some(80)), raw(1, "Suministros", None)];
    let parsed = select_suggestions(&items, &requests(), &categories());
    assert_eq!(parsed.len(), 1);
    assert_eq!(parsed[0].index, 1);
    assert_eq!(parsed[0].confidence, 50);
}

#[test]
fn rejects_answers_without_a_json_array() {
    assert_eq!(extract_array("I cannot help with that"), None);
    assert_eq!(extract_array("] before ["), None);
}

#[test]
fn drops_suggestions_that_the_amount_sign_contradicts() {
    let mut categories = categories();
    categories.push(Category { id: CategoryId(3), name: "Nómina".into(), kind: CategoryKind::Income, color: "#000000".into(), is_system: true });
    let parsed = select_suggestions(&[raw(0, "Nómina", Some(95)), raw(1, "Suministros", Some(90))], &requests(), &categories);
    assert_eq!(parsed.len(), 1);
    assert_eq!(parsed[0].index, 1);
}

#[test]
fn keeps_income_categories_for_positive_amounts() {
    let mut categories = categories();
    categories.push(Category { id: CategoryId(3), name: "Nómina".into(), kind: CategoryKind::Income, color: "#000000".into(), is_system: true });
    let incoming = vec![SuggestionRequest { description: "NOMINA MENSUAL".into(), counterparty: None, amount: Money::from_minor_units(235_000) }];
    let parsed = select_suggestions(&[raw(0, "Nómina", Some(98))], &incoming, &categories);
    assert_eq!(parsed.len(), 1);
    assert_eq!(parsed[0].category_name, "Nómina");
}

#[test]
fn transfers_are_valid_in_both_directions() {
    assert!(fits_the_sign(CategoryKind::Transfer, Money::from_minor_units(-40_000)));
    assert!(fits_the_sign(CategoryKind::Transfer, Money::from_minor_units(40_000)));
    assert!(fits_the_sign(CategoryKind::Expense, Money::zero()));
    assert!(fits_the_sign(CategoryKind::Income, Money::zero()));
    assert!(!fits_the_sign(CategoryKind::Income, Money::from_minor_units(-1)));
}

#[test]
fn declared_confidence_is_capped_at_one_hundred() {
    let parsed = select_suggestions(&[raw(0, "Supermercado", Some(250))], &requests(), &categories());
    assert_eq!(parsed[0].confidence, 100);
}

#[test]
fn prompt_carries_no_identifying_data_from_the_transaction() {
    let transaction = Transaction {
        id: TransactionId(4242),
        account_id: AccountId(77),
        booked_on: Date::from_ymd_opt(2026, 3, 1).unwrap(),
        value_on: None,
        description: "COMPRA TARJ MERCADONA".into(),
        counterparty: None,
        amount: Money::from_minor_units(-4_512),
        balance_after: Some(Money::from_minor_units(918_733)),
        category_id: None,
        notes: Some("nota privada del usuario".into()),
        source: TransactionSource::Imported,
        import_id: Some(ImportId(31)),
        fingerprint: "9f2c8ab1e4".into(),
    };
    let prompt = build(&[SuggestionRequest::from_transaction(&transaction)], &categories(), &[]);
    for leaked in ["4242", "77", "9187.33", "nota privada", "9f2c8ab1e4", "31"] {
        assert!(!prompt.contains(leaked), "`{leaked}` must not leave the machine in the prompt");
    }
    assert!(prompt.contains("COMPRA TARJ MERCADONA"));
    assert!(prompt.contains("-45.12"));
}

#[test]
fn an_empty_batch_needs_no_call_and_a_full_one_asks_per_movement() {
    let provider = AiProvider::ollama_default();
    assert!(matches!(plan_suggestions(&provider, &[]), Ok(None)));
    let call = plan_suggestions(&provider, &[movement("MERCADONA 1234", -4_512)]).unwrap().unwrap();
    assert_eq!(call.endpoint, DEFAULT_OLLAMA_ENDPOINT);
    assert_eq!(call.requests.len(), 1);
    assert_eq!(call.requests[0].description, "MERCADONA 1234");
    assert_eq!(call.requests[0].amount, Money::from_minor_units(-4_512));
}

#[test]
fn routes_are_joined_to_the_endpoint_without_its_trailing_slashes() {
    assert_eq!(api_url("http://127.0.0.1:11434//", "/api/tags"), "http://127.0.0.1:11434/api/tags");
    assert_eq!(api_url("http://localhost:11434", "/api/generate"), "http://localhost:11434/api/generate");
    assert!(matches!(availability_endpoint(&AiProvider::Disabled), Err(AiError::Disabled)));
    assert_eq!(availability_endpoint(&AiProvider::ollama_default()).unwrap(), DEFAULT_OLLAMA_ENDPOINT);
}

#[test]
fn two_movements_with_the_same_text_and_amount_make_the_same_prompt() {
    let mine = movement("COMPRA TARJ MERCADONA", -4_512);
    let mut other = movement("COMPRA TARJ MERCADONA", -4_512);
    other.id = TransactionId(99);
    other.account_id = AccountId(42);
    other.balance_after = Some(Money::from_minor_units(1_000_000));
    other.notes = Some("otra nota".into());
    other.fingerprint = "otra huella".into();
    other.import_id = Some(ImportId(7));
    let first = build(&[SuggestionRequest::from_transaction(&mine)], &categories(), &[]);
    let second = build(&[SuggestionRequest::from_transaction(&other)], &categories(), &[]);
    assert_eq!(first, second);
}

#[test]
fn brand_resolution_keeps_what_is_known_and_counts_failures() {
    let mut resolution = BrandResolution::new();
    resolution.record_cached("mercadona".into(), Some("supermercados".into()));
    resolution.record_cached("xyz".into(), None);
    assert_eq!(resolution.record_lookup("iberdrola".into(), Ok(Some("electricidad".into()))), Some(Some("electricidad".to_string())));
    assert_eq!(resolution.record_lookup("nadie".into(), Ok(None)), Some(None));
    assert_eq!(resolution.record_lookup("caido".into(), Err(AiError::UnusableAnswer)), None);
    assert_eq!(resolution.failed, 1);
    assert_eq!(
        resolution.facts,
        vec![
            BrandFact { term: "mercadona".into(), summary: "supermercados".into() },
            BrandFact { term: "iberdrola".into(), summary: "electricidad".into() },
        ]
    );
}
