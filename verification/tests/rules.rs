use moneywatcher::domain::{AccountKind, CategoryKind};
use moneywatcher::date::Date;
use moneywatcher::domain::{
    normalize_description, AccountId, CategoryId, Direction, RuleId, RuleMatcher, RuleOrigin, Rule,
    Transaction, TransactionId, TransactionSource,
};
use moneywatcher::learning::suggest_pattern;
use moneywatcher::money::Money;
use moneywatcher::rules::{learned_rule, plan_categorization, RuleEngine, RuleInput, LEARNED_RULE_PRIORITY};

fn rule(id: i64, pattern: &str, category: i64, priority: i64) -> Rule {
    Rule {
        id: RuleId(id),
        matcher: RuleMatcher::Contains,
        pattern: pattern.into(),
        account_id: None,
        direction: None,
        min_amount: None,
        max_amount: None,
        category_id: CategoryId(category),
        priority,
        origin: RuleOrigin::User,
        hits: 0,
    }
}

fn input(description: &str, minor: i64) -> RuleInput<'_> {
    RuleInput { account_id: AccountId(1), description, counterparty: None, amount: Money::from_minor_units(minor) }
}

fn transaction(id: i64, description: &str, minor: i64) -> Transaction {
    Transaction {
        id: TransactionId(id),
        account_id: AccountId(1),
        booked_on: Date::from_ymd_opt(2026, 3, 1).unwrap(),
        value_on: None,
        description: description.to_string(),
        counterparty: None,
        amount: Money::from_minor_units(minor),
        balance_after: None,
        category_id: None,
        notes: None,
        source: TransactionSource::Imported,
        import_id: None,
        fingerprint: format!("fingerprint-{id}"),
    }
}

#[test]
fn normalizes_description_noise() {
    assert_eq!(
        normalize_description("  COMPRA   TARJ. *1234  MERCADONA/VALENCIA "),
        "compra tarj 1234 mercadona valencia"
    );
}

#[test]
fn normalizing_twice_changes_nothing_on_ascii_text() {
    for raw in ["  COMPRA   TARJ. *1234  MERCADONA/VALENCIA ", "--A--b  C..", "", "   ", "Recibo 07/2024 LUZ"] {
        let once = normalize_description(raw);
        assert_eq!(normalize_description(&once), once);
        assert!(once.chars().all(|c| c.is_ascii_lowercase() || c.is_ascii_digit() || c == ' '));
        assert!(!once.starts_with(' ') && !once.ends_with(' ') && !once.contains("  "));
    }
}

#[test]
fn direction_follows_amount_sign() {
    let income = transaction(1, "Nómina", 180_000);
    assert_eq!(income.direction(), Direction::Income);
    let expense = transaction(2, "Nómina", -1);
    assert_eq!(expense.direction(), Direction::Expense);
}

#[test]
fn extracts_the_merchant_from_a_card_purchase() {
    assert_eq!(suggest_pattern("COMPRA TARJ. *1234 MERCADONA VALENCIA", None).as_deref(), Some("mercadona"));
}

#[test]
fn prefers_the_counterparty_when_available() {
    assert_eq!(
        suggest_pattern("RECIBO DOMICILIADO", Some("IBERDROLA CLIENTES SAU")).as_deref(),
        Some("iberdrola")
    );
}

#[test]
fn joins_two_tokens_when_the_first_is_too_short() {
    assert_eq!(suggest_pattern("PAGO CLUB NATACION MUNICIPAL", None).as_deref(), Some("club natacion"));
}

#[test]
fn joins_only_the_word_right_after_a_short_one() {
    assert_eq!(suggest_pattern("PAGO CLUB DE NATACION", None).as_deref(), Some("club"));
    assert_eq!(suggest_pattern("PAGO BAR 123 PEPE", None).as_deref(), Some("bar"));
    assert_eq!(suggest_pattern("BAR", None).as_deref(), Some("bar"));
}

#[test]
fn a_learned_pattern_is_found_in_the_movement_it_came_from() {
    for description in ["PAGO CLUB DE NATACION", "PAGO CLUB NATACION MUNICIPAL", "COMPRA TARJ. *1234 MERCADONA VALENCIA"] {
        let pattern = suggest_pattern(description, None).expect("a pattern");
        assert!(normalize_description(description).contains(&pattern));
    }
}

#[test]
fn returns_nothing_when_everything_is_noise() {
    assert_eq!(suggest_pattern("PAGO TARJETA 1234", None), None);
    assert_eq!(suggest_pattern("   ", None), None);
}

#[test]
fn matches_ignoring_case_accents_and_punctuation() {
    let engine = RuleEngine::new(vec![rule(1, "MERCADONA", 5, 100)]);
    let matched = engine
        .categorize(&input("Compra tarj. *1234 mercadona/valencia", -4_512))
        .expect("the rule applies");
    assert_eq!(matched.category_id, CategoryId(5));
}

#[test]
fn higher_priority_rule_wins() {
    let engine = RuleEngine::new(vec![rule(1, "compra", 5, 10), rule(2, "mercadona", 9, 90)]);
    let matched = engine.categorize(&input("COMPRA MERCADONA", -1_000)).unwrap();
    assert_eq!(matched.rule_id, RuleId(2));
}

#[test]
fn the_order_the_rules_come_in_does_not_matter() {
    let rules = vec![rule(3, "mercadona", 7, 50), rule(1, "compra", 5, 50), rule(2, "mercadona", 9, 90), rule(4, "tarj", 8, 10)];
    let mut reversed = rules.clone();
    reversed.reverse();
    let mut rotated = rules.clone();
    rotated.rotate_left(1);
    let engines = [RuleEngine::new(rules), RuleEngine::new(reversed), RuleEngine::new(rotated)];
    for text in ["COMPRA MERCADONA", "COMPRA TARJ", "MERCADONA", "NADA"] {
        let first = engines[0].categorize(&input(text, -1_000));
        for engine in &engines[1..] {
            assert_eq!(engine.categorize(&input(text, -1_000)), first);
        }
    }
}

#[test]
fn respects_direction_and_amount_bounds() {
    let mut only_income = rule(1, "transferencia", 5, 100);
    only_income.direction = Some(Direction::Income);
    let mut small_expense = rule(2, "transferencia", 7, 90);
    small_expense.direction = Some(Direction::Expense);
    small_expense.max_amount = Some(Money::from_minor_units(5_000));
    let engine = RuleEngine::new(vec![only_income, small_expense]);
    assert_eq!(engine.categorize(&input("TRANSFERENCIA RECIBIDA", 20_000)).unwrap().category_id, CategoryId(5));
    assert_eq!(engine.categorize(&input("TRANSFERENCIA ENVIADA", -3_000)).unwrap().category_id, CategoryId(7));
    assert!(engine.categorize(&input("TRANSFERENCIA ENVIADA", -90_000)).is_none());
}

#[test]
fn account_scoped_rules_do_not_leak_to_other_banks() {
    let mut scoped = rule(1, "nomina", 5, 100);
    scoped.account_id = Some(AccountId(2));
    let engine = RuleEngine::new(vec![scoped]);
    assert!(engine.categorize(&input("NOMINA MARZO", 180_000)).is_none());
    assert!(engine
        .categorize(&RuleInput {
            account_id: AccountId(2),
            description: "NOMINA MARZO",
            counterparty: None,
            amount: Money::from_minor_units(180_000),
        })
        .is_some());
}

#[test]
fn searches_counterparty_too() {
    let engine = RuleEngine::new(vec![rule(1, "iberdrola", 5, 100)]);
    let matched = engine.categorize(&RuleInput {
        account_id: AccountId(1),
        description: "RECIBO DOMICILIADO",
        counterparty: Some("IBERDROLA CLIENTES SAU"),
        amount: Money::from_minor_units(-7_290),
    });
    assert!(matched.is_some());
}

#[test]
fn exact_and_prefix_matchers() {
    let mut equals = rule(1, "spotify", 5, 100);
    equals.matcher = RuleMatcher::Equals;
    let mut starts = rule(2, "pago", 7, 50);
    starts.matcher = RuleMatcher::StartsWith;
    let engine = RuleEngine::new(vec![equals, starts]);
    assert_eq!(engine.categorize(&input("Spotify", -1_099)).unwrap().category_id, CategoryId(5));
    assert_eq!(engine.categorize(&input("PAGO SPOTIFY AB", -1_099)).unwrap().category_id, CategoryId(7));
}

#[test]
fn returns_nothing_when_no_rule_applies() {
    let engine = RuleEngine::new(vec![rule(1, "mercadona", 5, 100)]);
    assert!(engine.categorize(&input("PEAJE AP-7", -1_240)).is_none());
    assert!(RuleEngine::new(Vec::new()).is_empty());
}

#[test]
fn ties_in_priority_go_to_the_older_rule() {
    let engine = RuleEngine::new(vec![rule(7, "mercadona", 9, 100), rule(3, "mercadona", 5, 100)]);
    assert_eq!(engine.categorize(&input("MERCADONA", -100)).unwrap().rule_id, RuleId(3));
}

#[test]
fn suffix_matcher_reads_the_end_of_the_text() {
    let mut ends = rule(1, "valencia", 4, 100);
    ends.matcher = RuleMatcher::EndsWith;
    let engine = RuleEngine::new(vec![ends]);
    assert!(engine.categorize(&input("MERCADONA VALENCIA", -100)).is_some());
    assert!(engine.categorize(&input("VALENCIA MERCADONA", -100)).is_none());
}

#[test]
fn plans_which_movements_each_category_gets() {
    let engine = RuleEngine::new(vec![rule(1, "mercadona", 5, 100), rule(2, "peaje", 6, 100)]);
    let pending = vec![
        transaction(10, "COMPRA MERCADONA VALENCIA", -4_512),
        transaction(11, "PEAJE AP-7", -1_240),
        transaction(12, "MERCADONA CENTRO", -2_010),
        transaction(13, "SIN REGLA", -100),
    ];
    let plan = plan_categorization(&engine, &pending);
    assert_eq!(plan.by_category.len(), 2);
    assert_eq!(plan.by_category[0].0, CategoryId(5));
    assert_eq!(plan.by_category[0].1, vec![TransactionId(10), TransactionId(12)]);
    assert_eq!(plan.by_category[1].0, CategoryId(6));
    assert_eq!(plan.by_category[1].1, vec![TransactionId(11)]);
    assert_eq!(plan.hits, vec![(RuleId(1), 2), (RuleId(2), 1)]);
}

#[test]
fn with_no_rules_nothing_is_filed() {
    let engine = RuleEngine::new(vec![]);
    let pending = vec![transaction(1, "MERCADONA", -100), transaction(2, "IBERDROLA", -200)];
    let plan = plan_categorization(&engine, &pending);
    assert!(plan.by_category.is_empty());
    assert!(plan.hits.is_empty());
}

#[test]
fn a_correction_teaches_a_contains_rule_below_manual_ones() {
    let t = transaction(1, "COMPRA TARJ. *1234 MERCADONA VALENCIA", -4_512);
    let rule = learned_rule(&t, CategoryId(3)).expect("a pattern is found");
    assert_eq!(rule.matcher, RuleMatcher::Contains);
    assert_eq!(rule.pattern, "mercadona");
    assert_eq!(rule.priority, LEARNED_RULE_PRIORITY);
    assert_eq!(rule.origin, RuleOrigin::Learned);
    assert_eq!(rule.category_id, CategoryId(3));
    assert!(learned_rule(&transaction(2, "PAGO TARJETA 1234", -100), CategoryId(3)).is_none());
}

#[test]
fn kinds_read_back_from_their_text() {
    for kind in [RuleMatcher::Contains, RuleMatcher::StartsWith, RuleMatcher::EndsWith, RuleMatcher::Equals] {
        assert_eq!(RuleMatcher::from_str_opt(kind.as_str()), Some(kind));
    }
    for kind in [CategoryKind::Income, CategoryKind::Expense, CategoryKind::Transfer] {
        assert_eq!(CategoryKind::from_str_opt(kind.as_str()), Some(kind));
    }
    assert_eq!(AccountKind::from_str_opt("nope"), None);
    assert_eq!(TransactionSource::from_str_opt("manual"), Some(TransactionSource::Manual));
    assert_eq!(RuleOrigin::from_str_opt(RuleOrigin::Learned.as_str()), Some(RuleOrigin::Learned));
}

#[test]
fn a_learned_rule_files_the_merchant_in_any_account_and_either_sign() {
    let corrected = transaction(1, "COMPRA TARJ. *1234 MERCADONA VALENCIA", -4_512);
    let new = learned_rule(&corrected, CategoryId(6)).unwrap();
    let stored = Rule {
        id: RuleId(9),
        matcher: new.matcher,
        pattern: new.pattern.clone(),
        account_id: new.account_id,
        direction: new.direction,
        min_amount: new.min_amount,
        max_amount: new.max_amount,
        category_id: new.category_id,
        priority: new.priority,
        origin: new.origin,
        hits: 0,
    };
    let engine = RuleEngine::new(vec![stored]);
    let refund = RuleInput {
        account_id: AccountId(7),
        description: "DEVOLUCION MERCADONA CENTRO",
        counterparty: None,
        amount: Money::from_minor_units(2_010),
    };
    assert_eq!(engine.categorize(&refund).map(|m| m.category_id), Some(CategoryId(6)));
    assert_eq!(engine.categorize(&input("MERCADONA", -1)).map(|m| m.category_id), Some(CategoryId(6)));
    assert_eq!(engine.categorize(&input("PEAJE AP-7", -1_240)), None);
}
