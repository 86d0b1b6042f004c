use chrono::{Datelike, NaiveDate};
use flash_tui::card::{
    add_deck, card_id, collect_cram_cards, collect_cram_cards_by_group, group_path, sorted_groups,
    sorted_languages, Card, RawCard,
};
use flash_tui::date::{days_after, FIRST_DAY, LAST_DAY};
use flash_tui::files::{is_stale_progress_file, language_of_id, progress_file_language, progress_file_name};
use flash_tui::order::{insert_sorted, str_less};
use flash_tui::progress::{sm2_update, Progress, INITIAL_EASE_BITS};
use flash_tui::review::{filter_due_cards, filter_due_cards_by_group};
use flash_tui::session::{start_study_session, Action, App, AppState, Key, RatingRequest};
use flash_tui::stats::rating_counts;
use flash_tui::store::ProgressStore;

fn raw(word: &str) -> RawCard {
    RawCard {
        word: word.to_string(),
        translation: format!("{}-t", word),
        meaning: format!("{}-m", word),
        ipa: format!("/{}/", word),
    }
}

fn card(language: &str, group: &str, word: &str) -> Card {
    Card { language: language.to_string(), group: group.to_string(), raw: raw(word) }
}

fn day(y: i32, m: u32, d: u32) -> i32 {
    NaiveDate::from_ymd_opt(y, m, d).unwrap().num_days_from_ce()
}

fn progress(interval: u32, repetitions: u32, next_review: i32) -> Progress {
    Progress { interval, repetitions, ease_factor_bits: INITIAL_EASE_BITS, next_review, last_review: None }
}

fn words(cards: &[Card]) -> Vec<String> {
    cards.iter().map(|c| c.raw.word.clone()).collect()
}

fn deck() -> Vec<Card> {
    vec![
        card("es", "verbos", "hablar"),
        card("en", "basics", "hello"),
        card("es", "comida", "pan"),
        card("es", "verbos", "comer"),
        card("fr", "base", "bonjour"),
    ]
}

#[test]
fn card_id_joins_language_group_and_word() {
    assert_eq!(card_id(&card("es", "verbos/irregulares", "ir")), "es/verbos/irregulares/ir");
}

#[test]
fn cram_cards_keep_deck_order_of_one_language() {
    let all = deck();
    assert_eq!(words(&collect_cram_cards(&all, "es")), vec!["hablar", "pan", "comer"]);
    assert_eq!(words(&collect_cram_cards_by_group(&all, "es", "verbos")), vec!["hablar", "comer"]);
    assert!(collect_cram_cards(&all, "de").is_empty());
}

#[test]
fn due_cards_are_new_or_scheduled_until_today() {
    let all = deck();
    let today = day(2024, 5, 10);
    let mut store = ProgressStore::new();
    store.update("es/verbos/hablar".to_string(), progress(6, 2, today + 1));
    store.update("es/comida/pan".to_string(), progress(1, 1, today));
    store.update("es/verbos/comer".to_string(), progress(1, 1, today - 3));
    assert_eq!(words(&filter_due_cards(&all, "es", &store, today)), vec!["pan", "comer"]);
    assert_eq!(words(&filter_due_cards_by_group(&all, "es", "verbos", &store, today)), vec!["comer"]);
    assert_eq!(words(&filter_due_cards(&all, "es", &store, today + 1)), vec!["hablar", "pan", "comer"]);
    assert_eq!(words(&filter_due_cards(&all, "es", &store, today + 100)), vec!["hablar", "pan", "comer"]);
    let cram = words(&collect_cram_cards(&all, "es"));
    for w in words(&filter_due_cards(&all, "es", &store, today)) {
        assert!(cram.contains(&w));
    }
}

#[test]
fn days_after_follows_the_calendar() {
    assert_eq!(days_after(day(2000, 1, 1), 31), day(2000, 2, 1));
    assert_eq!(days_after(day(2024, 2, 28), 1), day(2024, 2, 29));
    assert_eq!(days_after(LAST_DAY - 1, 1), LAST_DAY);
    assert_eq!(days_after(FIRST_DAY, 0), FIRST_DAY);
}

#[test]
fn calendar_range_is_chronos() {
    assert_eq!(NaiveDate::MIN.num_days_from_ce(), FIRST_DAY);
    assert_eq!(NaiveDate::MAX.num_days_from_ce(), LAST_DAY);
}

#[test]
fn initial_ease_is_two_and_a_half() {
    assert_eq!(f64::from_bits(INITIAL_EASE_BITS), 2.5);
    let p = Progress::initial(100);
    assert_eq!(p, Progress { interval: 1, repetitions: 0, ease_factor_bits: INITIAL_EASE_BITS, next_review: 100, last_review: None });
}

#[test]
fn sm2_failure_resets_and_is_due_tomorrow() {
    let today = day(2024, 1, 1);
    let mut p = progress(15, 4, today);
    sm2_update(&mut p, 1, today, 7, 99);
    assert_eq!(p, Progress { interval: 1, repetitions: 0, ease_factor_bits: 7, next_review: today + 1, last_review: Some(today) });
    let mut p = progress(15, 4, today);
    sm2_update(&mut p, 0, today, 7, 99);
    assert_eq!(p.repetitions, 0);
    assert_eq!(p.next_review, day(2024, 1, 2));
}

#[test]
fn sm2_successes_go_one_six_then_grown() {
    let today = day(2024, 1, 31);
    let mut p = Progress::initial(today);
    sm2_update(&mut p, 3, today, 11, 3);
    assert_eq!((p.repetitions, p.interval, p.next_review), (1, 1, day(2024, 2, 1)));
    sm2_update(&mut p, 2, today, 12, 3);
    assert_eq!((p.repetitions, p.interval, p.next_review), (2, 6, day(2024, 2, 6)));
    sm2_update(&mut p, 2, today, 13, 16);
    assert_eq!((p.repetitions, p.interval, p.next_review), (3, 16, day(2024, 2, 16)));
    assert_eq!(p.ease_factor_bits, 13);
    assert_eq!(p.last_review, Some(today));
}

#[test]
fn store_reads_back_what_was_written() {
    let mut store = ProgressStore::new();
    assert!(store.get("es/a/b").is_none());
    store.update("es/a/b".to_string(), progress(1, 0, 5));
    store.update("en/a/b".to_string(), progress(6, 2, 9));
    store.update("es/a/b".to_string(), progress(2, 1, 7));
    assert_eq!(store.get("es/a/b"), Some(&progress(2, 1, 7)));
    assert_eq!(store.get("en/a/b"), Some(&progress(6, 2, 9)));
    assert!(store.get("fr/a/b").is_none());
}

#[test]
fn later_loaded_entry_wins() {
    let mut store = ProgressStore::new();
    store.update("es/x/a".to_string(), progress(1, 0, 1));
    store.extend(vec![
        ("es/x/a".to_string(), progress(2, 0, 2)),
        ("es/x/b".to_string(), progress(3, 0, 3)),
        ("es/x/a".to_string(), progress(4, 0, 4)),
    ]);
    assert_eq!(store.get("es/x/a"), Some(&progress(4, 0, 4)));
    assert_eq!(store.get("es/x/b"), Some(&progress(3, 0, 3)));
}

#[test]
fn language_of_id_is_the_part_before_the_first_slash() {
    assert_eq!(language_of_id("es/verbos/hablar"), "es");
    assert_eq!(language_of_id("sinbarra"), "sinbarra");
    assert_eq!(language_of_id("/x"), "");
    assert_eq!(language_of_id("日本語/a/b"), "日本語");
}

#[test]
fn progress_file_names_round_trip() {
    assert_eq!(progress_file_name("es"), "progress_es.json");
    assert_eq!(progress_file_language("progress_es.json"), Some("es".to_string()));
    assert_eq!(progress_file_language(&progress_file_name("日本語")), Some("日本語".to_string()));
    assert_eq!(progress_file_language("progress_.json"), Some(String::new()));
    assert_eq!(progress_file_language("progress.json"), None);
    assert_eq!(progress_file_language("progress_es.txt"), None);
    assert_eq!(progress_file_language("xprogress_es.json"), None);
    assert_eq!(progress_file_language("progress_json"), None);
}

#[test]
fn stale_progress_files_are_those_of_other_languages() {
    let langs = vec!["es".to_string(), "en".to_string()];
    assert!(!is_stale_progress_file("progress_es.json", &langs));
    assert!(is_stale_progress_file("progress_fr.json", &langs));
    assert!(!is_stale_progress_file("notes.json", &langs));
}

#[test]
fn grouping_by_language_then_loading_restores_the_store() {
    let mut store = ProgressStore::new();
    store.update("es/v/hablar".to_string(), progress(1, 0, 1));
    store.update("en/b/hello".to_string(), progress(2, 0, 2));
    store.update("es/c/pan".to_string(), progress(3, 0, 3));
    let groups = store.group_by_language();
    assert_eq!(groups.len(), 2);
    let es = groups.iter().find(|g| g.0 == "es").unwrap();
    let mut es_ids: Vec<String> = es.1.iter().map(|e| e.0.clone()).collect();
    es_ids.sort();
    assert_eq!(es_ids, vec!["es/c/pan", "es/v/hablar"]);
    let mut loaded = ProgressStore::new();
    for (_, mut items) in groups.into_iter().rev() {
        items.reverse();
        loaded.extend(items);
    }
    for id in ["es/v/hablar", "en/b/hello", "es/c/pan"] {
        assert_eq!(loaded.get(id), store.get(id));
    }
}

#[test]
fn strings_order_as_std_does() {
    assert!(str_less("a", "b"));
    assert!(str_less("ab", "abc"));
    assert!(!str_less("abc", "ab"));
    assert!(!str_less("x", "x"));
    assert!(str_less("Z", "a"));
    assert!(str_less("z", "é"));
    assert_eq!(str_less("é", "z"), "é" < "z");
    let mut v: Vec<String> = Vec::new();
    for s in ["pera", "manzana", "pera", "uva"] {
        insert_sorted(&mut v, s.to_string());
    }
    assert_eq!(v, vec!["manzana", "pera", "uva"]);
}

#[test]
fn menus_list_languages_and_groups_once_in_order() {
    let all = deck();
    assert_eq!(sorted_languages(&all), vec!["en", "es", "fr"]);
    assert_eq!(sorted_groups(&all, "es"), vec!["comida", "verbos"]);
    assert!(sorted_groups(&all, "de").is_empty());
}

#[test]
fn decks_are_added_with_language_and_group_paths() {
    assert_eq!(group_path("", "verbos"), "verbos");
    assert_eq!(group_path("verbos", "irregulares"), "verbos/irregulares");
    let mut cards = vec![card("en", "x", "y")];
    add_deck(&mut cards, "es", "verbos/irregulares", vec![raw("ir"), raw("ser")]);
    assert_eq!(cards.len(), 3);
    assert_eq!(card_id(&cards[1]), "es/verbos/irregulares/ir");
    assert_eq!(cards[2].raw.meaning, "ser-m");
}

#[test]
fn rating_counts_count_each_answer() {
    assert_eq!(rating_counts(&vec![0, 3, 3, 2, 7, 3]), [1, 0, 1, 3]);
    assert_eq!(rating_counts(&Vec::new()), [0, 0, 0, 0]);
}

#[test]
fn study_session_shuffles_the_given_cards() {
    let mut state = AppState::Quit;
    start_study_session(Vec::new(), false, &mut state);
    assert!(matches!(state, AppState::LanguageSelect));
    let cards = collect_cram_cards(&deck(), "es");
    start_study_session(cards, true, &mut state);
    match state {
        AppState::Study { due_cards, current_index, show_back, rating_pending, cram, session_history, ratings_given } => {
            let mut w = words(&due_cards);
            w.sort();
            assert_eq!(w, vec!["comer", "hablar", "pan"]);
            assert_eq!((current_index, show_back, rating_pending, cram), (0, false, false, true));
            assert!(session_history.is_empty() && ratings_given.is_empty());
        }
        _ => panic!("no study session"),
    }
}

fn study_index(app: &App) -> usize {
    match app.state() {
        AppState::Study { current_index, .. } => *current_index,
        _ => panic!("not studying"),
    }
}

fn current_word(app: &App) -> String {
    match app.state() {
        AppState::Study { due_cards, current_index, .. } => due_cards[*current_index].raw.word.clone(),
        _ => panic!("not studying"),
    }
}

#[test]
fn language_menu_navigation() {
    let mut app = App::new(deck(), ProgressStore::new(), day(2024, 1, 1));
    assert_eq!(app.languages(), &vec!["en".to_string(), "es".to_string(), "fr".to_string()]);
    assert_eq!(app.selected(), Some(0));
    assert_eq!(app.handle_key(Key::Up), Action::Continue);
    assert_eq!(app.selected(), Some(0));
    app.handle_key(Key::Down);
    app.handle_key(Key::Down);
    app.handle_key(Key::Down);
    assert_eq!(app.selected(), Some(2));
    app.handle_key(Key::Up);
    assert_eq!(app.handle_key(Key::Enter), Action::Continue);
    match app.state() {
        AppState::GroupSelect { language, groups } => {
            assert_eq!(language, "es");
            assert_eq!(groups, &vec!["Todos los grupos".to_string(), "comida".to_string(), "verbos".to_string()]);
        }
        _ => panic!("no group menu"),
    }
    assert_eq!(app.selected(), Some(0));
    app.handle_key(Key::Esc);
    assert!(matches!(app.state(), AppState::LanguageSelect));
    assert_eq!(app.handle_key(Key::Esc), Action::Exit);
    assert!(matches!(app.state(), AppState::Quit));
}

#[test]
fn q_quits_from_any_screen() {
    let mut app = App::new(deck(), ProgressStore::new(), day(2024, 1, 1));
    app.handle_key(Key::Enter);
    assert_eq!(app.handle_key(Key::Char('q')), Action::Exit);
    assert!(matches!(app.state(), AppState::Quit));
}

fn start_es_verbs(app: &mut App) {
    app.handle_key(Key::Down);
    app.handle_key(Key::Enter);
    app.handle_key(Key::Down);
    app.handle_key(Key::Down);
    app.handle_key(Key::Enter);
}

#[test]
fn nothing_due_goes_back_to_languages() {
    let today = day(2024, 1, 1);
    let mut store = ProgressStore::new();
    store.update("es/verbos/hablar".to_string(), progress(6, 2, today + 6));
    store.update("es/verbos/comer".to_string(), progress(6, 2, today + 6));
    let mut app = App::new(deck(), store, today);
    start_es_verbs(&mut app);
    assert!(matches!(app.state(), AppState::LanguageSelect));
    // a cram session takes every card regardless of the schedule
    let mut app2 = App::new(deck(), ProgressStore::new(), today);
    app2.handle_key(Key::Down);
    app2.handle_key(Key::Enter);
    app2.handle_key(Key::Char('c'));
    match app2.state() {
        AppState::Study { due_cards, cram, .. } => {
            assert_eq!(due_cards.len(), 3);
            assert!(*cram);
        }
        _ => panic!("no cram session"),
    }
}

#[test]
fn rating_then_going_back_restores_the_session() {
    let today = day(2024, 3, 1);
    let mut store = ProgressStore::new();
    store.update("es/verbos/comer".to_string(), progress(6, 2, today - 1));
    let mut app = App::new(deck(), store, today);
    start_es_verbs(&mut app);
    assert_eq!(study_index(&app), 0);
    let first = current_word(&app);
    // a rating key does nothing before the answer is shown
    assert_eq!(app.handle_key(Key::Char('2')), Action::Continue);
    app.handle_key(Key::Char(' '));
    let id = format!("es/verbos/{}", first);
    let before = app.store().get(&id).cloned();
    let expected = before.unwrap_or(Progress::initial(today));
    let action = app.handle_key(Key::Char('3'));
    assert_eq!(
        action,
        Action::Rate(RatingRequest { quality: 3, ease_factor_bits: expected.ease_factor_bits, interval: expected.interval })
    );
    assert!(app.can_rate(3, 20));
    app.rate(3, 42, 20);
    assert_eq!(study_index(&app), 1);
    assert_eq!(app.store().get(&id).unwrap().ease_factor_bits, 42);
    app.handle_key(Key::Char('b'));
    assert_eq!(study_index(&app), 0);
    assert_eq!(app.store().get(&id), Some(&expected));
    match app.state() {
        AppState::Study { show_back, rating_pending, session_history, ratings_given, .. } => {
            assert!(*show_back && *rating_pending);
            assert!(session_history.is_empty() && ratings_given.is_empty());
        }
        _ => panic!("not studying"),
    }
}

#[test]
fn finishing_a_session_shows_statistics() {
    let today = day(2024, 3, 1);
    let mut app = App::new(deck(), ProgressStore::new(), today);
    start_es_verbs(&mut app);
    for q in ['0', '2'] {
        app.handle_key(Key::Char(' '));
        match app.handle_key(Key::Char(q)) {
            Action::Rate(r) => app.rate(r.quality, r.ease_factor_bits, r.interval),
            other => panic!("unexpected {:?}", other),
        }
    }
    match app.state() {
        AppState::Stats { cards_reviewed, ratings, language, cram } => {
            assert_eq!(*cards_reviewed, 2);
            assert_eq!(ratings, &vec![0, 2]);
            assert_eq!(language, "es");
            assert!(!*cram);
        }
        _ => panic!("no statistics"),
    }
    assert_eq!(app.store().get("es/verbos/hablar").unwrap().next_review, today + 1);
    assert_eq!(app.store().get("es/verbos/comer").unwrap().next_review, today + 1);
    app.handle_key(Key::Other);
    assert!(matches!(app.state(), AppState::LanguageSelect));
    // after a session nothing of that group is due today
    app.handle_key(Key::Down);
    app.handle_key(Key::Enter);
    app.handle_key(Key::Down);
    app.handle_key(Key::Down);
    app.handle_key(Key::Enter);
    assert!(matches!(app.state(), AppState::LanguageSelect));
}

#[test]
fn rating_past_the_calendar_is_refused() {
    let mut store = ProgressStore::new();
    store.update("es/verbos/hablar".to_string(), progress(6, 2, LAST_DAY));
    store.update("es/verbos/comer".to_string(), progress(6, 2, LAST_DAY));
    let mut app = App::new(deck(), store, LAST_DAY);
    start_es_verbs(&mut app);
    app.handle_key(Key::Char(' '));
    assert!(!app.can_rate(3, 10));
    assert!(!app.can_rate(0, 10));
    assert!(!app.can_rate(4, 10));
}

#[test]
fn a_cards_progress_is_saved_with_its_language() {
    let c = card("es", "verbos/irregulares", "ir/venir");
    assert_eq!(language_of_id(&card_id(&c)), "es");
    assert_eq!(progress_file_name(&language_of_id(&card_id(&c))), "progress_es.json");
}

#[test]
fn group_cram_sessions_split_the_language_session() {
    let all = deck();
    let total: usize = sorted_groups(&all, "es")
        .iter()
        .map(|g| collect_cram_cards_by_group(&all, "es", g).len())
        .sum();
    assert_eq!(total, collect_cram_cards(&all, "es").len());
    assert_eq!(words(&collect_cram_cards_by_group(&all, "es", "comida")), vec!["pan"]);
}

#[test]
fn a_review_schedules_the_card_ahead() {
    let today = day(2024, 6, 1);
    let mut p = progress(6, 2, today);
    sm2_update(&mut p, 2, today, INITIAL_EASE_BITS, 15);
    assert_eq!(p.interval, 15);
    assert!(p.next_review > today);
    assert_eq!(p.last_review, Some(today));
}
