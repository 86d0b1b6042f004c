use rand::seq::SliceRandom;
use vstd::prelude::*;
use crate::card::{
    card_id, card_key, lemma_cram_cards_of, collect_cram_cards, collect_cram_cards_by_group, has_group, has_language,
    of_group, of_language, sorted_groups, sorted_languages, Card,
};
use crate::files::language_views;
use crate::order::strictly_sorted;
use crate::progress::{
    initial_progress, interval_grows, lemma_review_outcome, lemma_review_schedules_ahead, sm2_can_update,
    sm2_interval, sm2_next, sm2_update, Progress, INITIAL_EASE_BITS,
};
use crate::review::{
    due_in_group, due_in_language, filter_due_cards, filter_due_cards_by_group, is_due,
    lemma_due_cards_of_language,
};
use crate::store::ProgressStore;

verus! {

/// A key press, as the session sees it.
#[derive(Clone, Copy, Debug, PartialEq, Eq, Structural)]
pub enum Key {
    Char(char),
    Esc,
    Enter,
    Up,
    Down,
    Other,
}

/// What the caller needs to compute the floating-point half of a review
/// (see `crate::progress::sm2_update`): the quality given and the card's current
/// ease factor and interval.
#[derive(Clone, Copy, Debug, PartialEq, Eq, Structural)]
pub struct RatingRequest {
    pub quality: u8,
    pub ease_factor_bits: u64,
    pub interval: u32,
}

/// What the caller does after a key press.
#[derive(Clone, Copy, Debug, PartialEq, Eq, Structural)]
pub enum Action {
    /// Draw the screen again and wait for the next key.
    Continue,
    /// Leave the program.
    Exit,
    /// Compute the new ease factor and grown interval for this review, then call `App::rate`.
    Rate(RatingRequest),
}

/// The screens of the program.
pub enum AppState {
    LanguageSelect,
    GroupSelect { language: String, groups: Vec<String> },
    Study {
        due_cards: Vec<Card>,
        current_index: usize,
        show_back: bool,
        rating_pending: bool,
        cram: bool,
        session_history: Vec<(String, Progress)>,
        ratings_given: Vec<u8>,
    },
    Stats { cards_reviewed: usize, ratings: Vec<u8>, language: String, cram: bool },
    Quit,
}

/// The screens as mathematical values.
#[verifier::ext_equal]
pub enum StateView {
    LanguageSelect,
    GroupSelect { language: Seq<char>, groups: Seq<Seq<char>> },
    Study {
        due_cards: Seq<Card>,
        current_index: nat,
        show_back: bool,
        rating_pending: bool,
        cram: bool,
        history: Seq<(Seq<char>, Progress)>,
        ratings: Seq<u8>,
    },
    Stats { cards_reviewed: nat, ratings: Seq<u8>, language: Seq<char>, cram: bool },
    Quit,
}

/// The session history as identifiers and progress values.
pub open spec fn history_view(h: Seq<(String, Progress)>) -> Seq<(Seq<char>, Progress)> {
    h.map_values(|e: (String, Progress)| (e.0@, e.1))
}

impl View for AppState {
    type V = StateView;

    open spec fn view(&self) -> StateView {
        match self {
            AppState::LanguageSelect => StateView::LanguageSelect,
            AppState::GroupSelect { language, groups } => StateView::GroupSelect {
                language: language@,
                groups: language_views(groups@),
            },
            AppState::Study {
                due_cards,
                current_index,
                show_back,
                rating_pending,
                cram,
                session_history,
                ratings_given,
            } => StateView::Study {
                due_cards: due_cards@,
                current_index: *current_index as nat,
                show_back: *show_back,
                rating_pending: *rating_pending,
                cram: *cram,
                history: history_view(session_history@),
                ratings: ratings_given@,
            },
            AppState::Stats { cards_reviewed, ratings, language, cram } => StateView::Stats {
                cards_reviewed: *cards_reviewed as nat,
                ratings: ratings@,
                language: language@,
                cram: *cram,
            },
            AppState::Quit => StateView::Quit,
        }
    }
}

/// Every rating is one of the four answers.
pub open spec fn valid_ratings(r: Seq<u8>) -> bool {
    forall|i: int| 0 <= i < r.len() ==> #[trigger] r[i] <= 3
}

/// What holds of every screen the program can be on: a study session has a current
/// card, one history entry (the card's identifier and its progress before the review)
/// and one rating for each card before it, and shows the back of the card while it
/// waits for a rating.
pub open spec fn state_wf(s: StateView) -> bool {
    match s {
        StateView::Study {
            due_cards,
            current_index,
            show_back,
            rating_pending,
            history,
            ratings,
            ..
        } => {
            &&& 0 < due_cards.len()
            &&& current_index < due_cards.len()
            &&& history.len() == current_index
            &&& ratings.len() == current_index
            &&& rating_pending ==> show_back
            &&& forall|i: int| 0 <= i < current_index ==> #[trigger] history[i].0 == card_key(due_cards[i])
            &&& valid_ratings(ratings)
        },
        StateView::Stats { cards_reviewed, ratings, .. } => {
            &&& cards_reviewed == ratings.len()
            &&& valid_ratings(ratings)
        },
        _ => true,
    }
}

/// The whole program state: the screen, the highlighted menu line, the language menu,
/// the deck, the progress store and the date of today.
pub struct App {
    state: AppState,
    selected: Option<usize>,
    languages: Vec<String>,
    cards: Vec<Card>,
    store: ProgressStore,
    today: i32,
}

/// The program state as mathematical values.
#[verifier::ext_equal]
pub struct AppView {
    pub state: StateView,
    pub selected: Option<usize>,
    pub languages: Seq<Seq<char>>,
    pub cards: Seq<Card>,
    pub store: Map<Seq<char>, Progress>,
    pub today: i32,
}

impl View for App {
    type V = AppView;

    closed spec fn view(&self) -> AppView {
        AppView {
            state: self.state@,
            selected: self.selected,
            languages: language_views(self.languages@),
            cards: self.cards@,
            store: self.store@,
            today: self.today,
        }
    }
}

/// The label of the first line of the group menu, which studies every group at once.
pub open spec fn all_groups_label() -> Seq<char> {
    "Todos los grupos"@
}

fn all_groups_string() -> (s: String)
    ensures
        s@ == all_groups_label(),
{
    String::from_str("Todos los grupos")
}

/// The group menu of a language: the all-groups line, then the language's groups in
/// `String` order, each once.
pub open spec fn is_group_menu(groups: Seq<Seq<char>>, cards: Seq<Card>, lang: Seq<char>) -> bool {
    &&& groups.len() > 0
    &&& groups[0] == all_groups_label()
    &&& strictly_sorted(groups.drop_first())
    &&& forall|g: Seq<char>| groups.drop_first().contains(g) <==> has_group(cards, lang, g)
}

/// The language menu: the deck's languages in `String` order, each once.
pub open spec fn is_language_menu(languages: Seq<Seq<char>>, cards: Seq<Card>) -> bool {
    &&& strictly_sorted(languages)
    &&& forall|l: Seq<char>| languages.contains(l) <==> has_language(cards, l)
}

pub open spec fn with_state(a: AppView, s: StateView) -> AppView {
    AppView { state: s, ..a }
}

/// Back to the language menu, first line highlighted.
pub open spec fn to_language_menu(a: AppView) -> AppView {
    AppView { state: StateView::LanguageSelect, selected: Some(0), ..a }
}

pub open spec fn move_up(sel: Option<usize>) -> Option<usize> {
    match sel {
        Some(s) => if s > 0 {
            Some((s - 1) as usize)
        } else {
            sel
        },
        None => None,
    }
}

pub open spec fn move_down(sel: Option<usize>, n: int) -> Option<usize> {
    match sel {
        Some(s) => if s + 1 < n {
            Some((s + 1) as usize)
        } else {
            sel
        },
        None => None,
    }
}

/// `b` is `a` with a study session of `cards` started: in some order, from the first
/// card, front side shown; with no cards, back to the language menu (the highlighted
/// line stays).
pub open spec fn session_started(a: AppView, b: AppView, cards: Seq<Card>, cram: bool) -> bool {
    if cards.len() == 0 {
        b == with_state(a, StateView::LanguageSelect)
    } else {
        &&& b.state matches StateView::Study { due_cards, .. }
        &&& b.state->due_cards.to_multiset() == cards.to_multiset()
        &&& b == with_state(
            a,
            StateView::Study {
                due_cards: b.state->due_cards,
                current_index: 0,
                show_back: false,
                rating_pending: false,
                cram,
                history: Seq::empty(),
                ratings: Seq::empty(),
            },
        )
    }
}

/// The progress a card has before a review: what is stored, or the first-review default.
pub open spec fn progress_before(store: Map<Seq<char>, Progress>, today: i32, id: Seq<char>) -> Progress {
    if store.contains_key(id) {
        store[id]
    } else {
        initial_progress(today)
    }
}

/// The digit keys `0` to `3` rate the current card.
pub open spec fn rating_of(c: char) -> Option<u8> {
    if '0' <= c && c <= '3' {
        Some((c as int - '0' as int) as u8)
    } else {
        None
    }
}

/// The identifier of the card being studied.
pub open spec fn current_key(s: StateView) -> Seq<char> {
    card_key(s->due_cards[s->current_index as int])
}

/// What a rating key asks the caller to compute.
pub open spec fn rating_request(a: AppView, quality: u8) -> RatingRequest {
    let p = progress_before(a.store, a.today, current_key(a.state));
    RatingRequest { quality, ease_factor_bits: p.ease_factor_bits, interval: p.interval }
}

/// One key press: `b` is the state after it and `action` what the caller does next.
pub open spec fn key_step(a: AppView, key: Key, b: AppView, action: Action) -> bool {
    if key == Key::Char('q') {
        b == with_state(a, StateView::Quit) && action == Action::Exit
    } else {
        match a.state {
            StateView::Quit => b == a && action == Action::Exit,
            StateView::LanguageSelect => match key {
                Key::Esc => b == with_state(a, StateView::Quit) && action == Action::Exit,
                Key::Enter => {
                    &&& action == Action::Continue
                    &&& if a.selected is Some && a.selected->0 < a.languages.len() {
                        let lang = a.languages[a.selected->0 as int];
                        &&& b.state matches StateView::GroupSelect { language, groups }
                        &&& b.state->GroupSelect_language == lang
                        &&& is_group_menu(b.state->groups, a.cards, lang)
                        &&& b == AppView { state: b.state, selected: Some(0), ..a }
                    } else {
                        b == a
                    }
                },
                Key::Up => b == AppView { selected: move_up(a.selected), ..a } && action
                    == Action::Continue,
                Key::Down => b == AppView { selected: move_down(a.selected, a.languages.len() as int), ..a }
                    && action == Action::Continue,
                _ => b == a && action == Action::Continue,
            },
            StateView::GroupSelect { language, groups } => {
                &&& action == Action::Continue
                &&& match key {
                    Key::Esc => b == to_language_menu(a),
                    Key::Enter => if a.selected is Some && a.selected->0 < groups.len() {
                        let chosen = groups[a.selected->0 as int];
                        session_started(
                            a,
                            b,
                            if chosen == all_groups_label() {
                                a.cards.filter(due_in_language(a.store, a.today, language))
                            } else {
                                a.cards.filter(due_in_group(a.store, a.today, language, chosen))
                            },
                            false,
                        )
                    } else {
                        b == a
                    },
                    Key::Char('c') => if a.selected is Some && a.selected->0 < groups.len() {
                        let chosen = groups[a.selected->0 as int];
                        session_started(
                            a,
                            b,
                            if chosen == all_groups_label() {
                                a.cards.filter(of_language(language))
                            } else {
                                a.cards.filter(of_group(language, chosen))
                            },
                            true,
                        )
                    } else {
                        b == a
                    },
                    Key::Up => b == AppView { selected: move_up(a.selected), ..a },
                    Key::Down => b == AppView { selected: move_down(a.selected, groups.len() as int), ..a },
                    _ => b == a,
                }
            },
            StateView::Study {
                due_cards,
                current_index,
                show_back,
                rating_pending,
                cram,
                history,
                ratings,
            } => match key {
                Key::Esc => b == to_language_menu(a) && action == Action::Continue,
                Key::Char(c) => if c == ' ' {
                    &&& action == Action::Continue
                    &&& if !rating_pending {
                        b == with_state(
                            a,
                            StateView::Study {
                                due_cards,
                                current_index,
                                show_back: true,
                                rating_pending: true,
                                cram,
                                history,
                                ratings,
                            },
                        )
                    } else {
                        b == a
                    }
                } else if rating_of(c) is Some && rating_pending {
                    b == a && action == Action::Rate(rating_request(a, rating_of(c)->0))
                } else if c == 'b' && current_index > 0 {
                    b == undone(a) && action == Action::Continue
                } else {
                    b == a && action == Action::Continue
                },
                _ => b == a && action == Action::Continue,
            },
            StateView::Stats { .. } => b == to_language_menu(a) && action == Action::Continue,
        }
    }
}

/// The state after the current card is rated `quality`, given the floating-point half
/// of the review: the card's progress is updated and the old one kept in the history;
/// the next card is shown front side up, or, after the last card, the statistics.
/// Nothing changes when no rating is awaited.
pub open spec fn rated(a: AppView, quality: u8, ease_factor_bits: u64, grown_interval: u32) -> AppView {
    match a.state {
        StateView::Study {
            due_cards,
            current_index,
            show_back,
            rating_pending,
            cram,
            history,
            ratings,
        } => if rating_pending {
            let id = current_key(a.state);
            let before = progress_before(a.store, a.today, id);
            let after = sm2_next(before, quality, a.today, ease_factor_bits, grown_interval);
            let store = a.store.insert(id, after);
            let history = history.push((id, before));
            let ratings = ratings.push(quality);
            if current_index + 1 < due_cards.len() {
                AppView {
                    state: StateView::Study {
                        due_cards,
                        current_index: current_index + 1,
                        show_back: false,
                        rating_pending: false,
                        cram,
                        history,
                        ratings,
                    },
                    store,
                    ..a
                }
            } else {
                AppView {
                    state: StateView::Stats {
                        cards_reviewed: ratings.len(),
                        ratings,
                        language: due_cards[0].language@,
                        cram,
                    },
                    store,
                    ..a
                }
            }
        } else {
            a
        },
        _ => a,
    }
}

/// Whether the review that `rate` would record stays in the range of the counters and
/// of the calendar.
pub open spec fn rating_allowed(a: AppView, quality: u8, grown_interval: u32) -> bool {
    match a.state {
        StateView::Study { rating_pending, .. } => rating_pending ==> quality <= 3 && sm2_can_update(
            progress_before(a.store, a.today, current_key(a.state)),
            quality,
            a.today,
            grown_interval,
        ),
        _ => true,
    }
}

/// Going back one card: the previous card's progress is put back as it was before its
/// review, its rating is forgotten, and it is shown back side up, waiting for a rating.
pub open spec fn undone(a: AppView) -> AppView {
    match a.state {
        StateView::Study { due_cards, current_index, cram, history, ratings, .. } => {
            let (id, before) = history.last();
            AppView {
                state: StateView::Study {
                    due_cards,
                    current_index: (current_index - 1) as nat,
                    show_back: true,
                    rating_pending: true,
                    cram,
                    history: history.drop_last(),
                    ratings: ratings.drop_last(),
                },
                store: a.store.insert(id, before),
                ..a
            }
        },
        _ => a,
    }
}

/// Calls rand: `SliceRandom::shuffle` on the cards with `rand::thread_rng()`.
/// Claimed: the cards afterwards are the same cards in some order (the shuffle only
/// swaps elements). Which order comes out is chance; `thread_rng` panics if the
/// operating system cannot seed it, which is not excluded here.
#[verifier::external_body]
fn shuffle_cards(cards: &mut Vec<Card>)
    ensures
        final(cards)@.to_multiset() == old(cards)@.to_multiset(),
{
    cards.shuffle(&mut rand::thread_rng());
}

/// Starts a study session on `cards` in random order, or goes back to the language
/// menu when there is nothing to study.
pub fn start_study_session(cards: Vec<Card>, cram: bool, app_state: &mut AppState)
    ensures
        cards@.len() == 0 ==> final(app_state)@ == StateView::LanguageSelect,
        cards@.len() > 0 ==> {
            &&& final(app_state)@ matches StateView::Study { due_cards, .. }
            &&& final(app_state)@->due_cards.to_multiset() == cards@.to_multiset()
            &&& final(app_state)@->due_cards.len() == cards@.len()
            &&& final(app_state)@ == StateView::Study {
                due_cards: final(app_state)@->due_cards,
                current_index: 0,
                show_back: false,
                rating_pending: false,
                cram,
                history: Seq::empty(),
                ratings: Seq::empty(),
            }
        },
{
    let mut cards = cards;
    if cards.len() == 0 {
        *app_state = AppState::LanguageSelect;
        return;
    }
    let ghost before = cards@;
    shuffle_cards(&mut cards);
    proof {
        cards@.to_multiset_ensures();
        before.to_multiset_ensures();
    }
    let history: Vec<(String, Progress)> = Vec::new();
    let ratings: Vec<u8> = Vec::new();
    assert(history_view(history@) =~= Seq::empty());
    assert(ratings@ =~= Seq::empty());
    *app_state = AppState::Study {
        due_cards: cards,
        current_index: 0,
        show_back: false,
        rating_pending: false,
        cram,
        session_history: history,
        ratings_given: ratings,
    };
}

impl App {
    #[verifier::type_invariant]
    closed spec fn inv(self) -> bool {
        state_wf(self.state@)
    }

    /// The program's start: the language menu of the deck, first line highlighted.
    pub fn new(cards: Vec<Card>, store: ProgressStore, today: i32) -> (app: App)
        ensures
            app@.state == StateView::LanguageSelect,
            app@.selected == Some(0usize),
            app@.cards == cards@,
            app@.store == store@,
            app@.today == today,
            is_language_menu(app@.languages, cards@),
            strictly_sorted(app@.languages),
            forall|l: Seq<char>| app@.languages.contains(l) <==> has_language(cards@, l),
    {
        let languages = sorted_languages(cards.as_slice());
        App { state: AppState::LanguageSelect, selected: Some(0), languages, cards, store, today }
    }

    /// The screen shown.
    pub fn state(&self) -> (s: &AppState)
        ensures
            s@ == self@.state,
            state_wf(s@),
    {
        proof {
            use_type_invariant(self);
        }
        &self.state
    }

    /// The highlighted line of the menu shown.
    pub fn selected(&self) -> (s: Option<usize>)
        ensures
            s == self@.selected,
    {
        self.selected
    }

    /// Highlights another menu line (drawing a menu moves the highlight back into it).
    pub fn select(&mut self, selected: Option<usize>)
        ensures
            final(self)@ == (AppView { selected, ..old(self)@ }),
    {
        proof {
            use_type_invariant(&*self);
        }
        self.selected = selected;
    }

    /// The language menu.
    pub fn languages(&self) -> (l: &Vec<String>)
        ensures
            language_views(l@) == self@.languages,
    {
        &self.languages
    }

    /// The deck.
    pub fn cards(&self) -> (c: &Vec<Card>)
        ensures
            c@ == self@.cards,
    {
        &self.cards
    }

    /// The progress recorded so far.
    pub fn store(&self) -> (s: &ProgressStore)
        ensures
            s@ == self@.store,
    {
        &self.store
    }

    /// The progress store, to be saved when the program ends.
    pub fn into_store(self) -> (s: ProgressStore)
        ensures
            s@ == self@.store,
    {
        self.store
    }

    /// Today's day number.
    pub fn today(&self) -> (t: i32)
        ensures
            t == self@.today,
    {
        self.today
    }

    /// Records `progress` for `id` in the store.
    fn store_update(&mut self, id: String, progress: Progress)
        ensures
            final(self)@ == (AppView { store: old(self)@.store.insert(id@, progress), ..old(self)@ }),
            final(self).state == old(self).state,
    {
        proof {
            use_type_invariant(&*self);
        }
        let mut store = ProgressStore::new();
        std::mem::swap(&mut self.store, &mut store);
        store.update(id, progress);
        self.store = store;
    }

    /// Takes the screen out, leaving `Quit` in its place.
    fn take_state(&mut self) -> (s: AppState)
        ensures
            s == old(self).state,
            final(self)@ == with_state(old(self)@, StateView::Quit),
    {
        let mut s = AppState::Quit;
        std::mem::swap(&mut self.state, &mut s);
        s
    }

    /// Handles one key press.
    pub fn handle_key(&mut self, key: Key) -> (action: Action)
        ensures
            key_step(old(self)@, key, final(self)@, action),
    {
        proof {
            use_type_invariant(&*self);
        }
        if key == Key::Char('q') {
            self.state = AppState::Quit;
            return Action::Exit;
        }
        match &self.state {
            AppState::Quit => Action::Exit,
            AppState::LanguageSelect => self.key_language_menu(key),
            AppState::GroupSelect { .. } => self.key_group_menu(key),
            AppState::Study { .. } => self.key_study(key),
            AppState::Stats { .. } => {
                self.state = AppState::LanguageSelect;
                self.selected = Some(0);
                Action::Continue
            },
        }
    }

    fn key_language_menu(&mut self, key: Key) -> (action: Action)
        requires
            old(self)@.state == StateView::LanguageSelect,
            key != Key::Char('q'),
        ensures
            key_step(old(self)@, key, final(self)@, action),
    {
        match key {
            Key::Esc => {
                self.state = AppState::Quit;
                Action::Exit
            },
            Key::Enter => {
                if let Some(i) = self.selected {
                    if i < self.languages.len() {
                        let language = self.languages[i].clone();
                        let groups = sorted_groups(self.cards.as_slice(), language.as_str());
                        let mut options: Vec<String> = Vec::new();
                        options.push(all_groups_string());
                        let mut j: usize = 0;
                        while j < groups.len()
                            invariant
                                j <= groups@.len(),
                                options@.len() == j + 1,
                                options@[0]@ == all_groups_label(),
                                language_views(options@).drop_first() =~= language_views(
                                    groups@,
                                ).take(j as int),
                            decreases groups@.len() - j,
                        {
                            options.push(groups[j].clone());
                            j = j + 1;
                        }
                        assert(language_views(groups@).take(groups@.len() as int) =~= language_views(
                            groups@,
                        ));
                        self.state = AppState::GroupSelect { language, groups: options };
                        self.selected = Some(0);
                    }
                }
                Action::Continue
            },
            Key::Up => {
                if let Some(sel) = self.selected {
                    if sel > 0 {
                        self.selected = Some(sel - 1);
                    }
                }
                Action::Continue
            },
            Key::Down => {
                if let Some(sel) = self.selected {
                    if sel < self.languages.len() && sel + 1 < self.languages.len() {
                        self.selected = Some(sel + 1);
                    }
                }
                Action::Continue
            },
            _ => Action::Continue,
        }
    }

    fn key_group_menu(&mut self, key: Key) -> (action: Action)
        requires
            old(self)@.state is GroupSelect,
            key != Key::Char('q'),
        ensures
            key_step(old(self)@, key, final(self)@, action),
    {
        let ghost a = self@;
        let (language, n, chosen) = match &self.state {
            AppState::GroupSelect { language, groups } => {
                let chosen = match self.selected {
                    Some(i) => if i < groups.len() {
                        Some(groups[i].clone())
                    } else {
                        None
                    },
                    None => None,
                };
                (language.clone(), groups.len(), chosen)
            },
            _ => {
                proof {
                    assert(false);
                }
                return Action::Continue;
            },
        };
        assert(language@ == a.state->GroupSelect_language);
        assert(n == a.state->groups.len());
        match key {
            Key::Esc => {
                self.state = AppState::LanguageSelect;
                self.selected = Some(0);
            },
            Key::Enter => {
                if let Some(chosen) = chosen {
                    let cards = if chosen == all_groups_string() {
                        filter_due_cards(self.cards.as_slice(), language.as_str(), &self.store, self.today)
                    } else {
                        filter_due_cards_by_group(
                            self.cards.as_slice(),
                            language.as_str(),
                            chosen.as_str(),
                            &self.store,
                            self.today,
                        )
                    };
                    let mut st = AppState::Quit;
                    start_study_session(cards, false, &mut st);
                    self.state = st;
                }
            },
            Key::Char('c') => {
                if let Some(chosen) = chosen {
                    let cards = if chosen == all_groups_string() {
                        collect_cram_cards(self.cards.as_slice(), language.as_str())
                    } else {
                        collect_cram_cards_by_group(self.cards.as_slice(), language.as_str(), chosen.as_str())
                    };
                    let mut st = AppState::Quit;
                    start_study_session(cards, true, &mut st);
                    self.state = st;
                }
            },
            Key::Up => {
                if let Some(sel) = self.selected {
                    if sel > 0 {
                        self.selected = Some(sel - 1);
                    }
                }
            },
            Key::Down => {
                if let Some(sel) = self.selected {
                    if sel < n && sel + 1 < n {
                        self.selected = Some(sel + 1);
                    }
                }
            },
            _ => {},
        }
        Action::Continue
    }

    /// The identifier and the current progress of the card being studied.
    fn current_progress(&self) -> (r: (String, Progress))
        requires
            self@.state is Study,
        ensures
            r.0@ == current_key(self@.state),
            r.1 == progress_before(self@.store, self@.today, current_key(self@.state)),
    {
        proof {
            use_type_invariant(self);
        }
        match &self.state {
            AppState::Study { due_cards, current_index, .. } => {
                let id = card_id(&due_cards[*current_index]);
                let before = match self.store.get(id.as_str()) {
                    Some(p) => *p,
                    None => Progress::initial(self.today),
                };
                (id, before)
            },
            _ => {
                proof {
                    assert(false);
                }
                (String::new(), Progress::initial(self.today))
            },
        }
    }

    fn key_study(&mut self, key: Key) -> (action: Action)
        requires
            old(self)@.state is Study,
            state_wf(old(self)@.state),
            key != Key::Char('q'),
        ensures
            key_step(old(self)@, key, final(self)@, action),
    {
        let (index, pending) = match &self.state {
            AppState::Study { current_index, rating_pending, .. } => (*current_index, *rating_pending),
            _ => {
                proof {
                    assert(false);
                }
                return Action::Continue;
            },
        };
        match key {
            Key::Esc => {
                self.state = AppState::LanguageSelect;
                self.selected = Some(0);
                Action::Continue
            },
            Key::Char(c) => {
                if c == ' ' {
                    if !pending {
                        let st = self.take_state();
                        match st {
                            AppState::Study {
                                due_cards,
                                current_index,
                                cram,
                                session_history,
                                ratings_given,
                                ..
                            } => {
                                self.state = AppState::Study {
                                    due_cards,
                                    current_index,
                                    show_back: true,
                                    rating_pending: true,
                                    cram,
                                    session_history,
                                    ratings_given,
                                };
                            },
                            _ => {},
                        }
                    }
                    Action::Continue
                } else if '0' <= c && c <= '3' && pending {
                    let quality = ((c as u32) - ('0' as u32)) as u8;
                    let (_id, before) = self.current_progress();
                    Action::Rate(
                        RatingRequest {
                            quality,
                            ease_factor_bits: before.ease_factor_bits,
                            interval: before.interval,
                        },
                    )
                } else if c == 'b' && index > 0 {
                    self.undo();
                    Action::Continue
                } else {
                    Action::Continue
                }
            },
            _ => Action::Continue,
        }
    }

    fn undo(&mut self)
        requires
            old(self)@.state is Study,
            state_wf(old(self)@.state),
            old(self)@.state->current_index > 0,
        ensures
            final(self)@ == undone(old(self)@),
    {
        let st = self.take_state();
        match st {
            AppState::Study { due_cards, current_index, cram, session_history, ratings_given, .. } => {
                let mut history = session_history;
                let mut ratings = ratings_given;
                let ghost h = history@;
                match history.pop() {
                    Some(entry) => {
                        let (id, before) = entry;
                        self.store_update(id, before);
                    },
                    None => {},
                }
                ratings.pop();
                assert(history_view(history@) =~= history_view(h).drop_last());
                self.state = AppState::Study {
                    due_cards,
                    current_index: current_index - 1,
                    show_back: true,
                    rating_pending: true,
                    cram,
                    session_history: history,
                    ratings_given: ratings,
                };
            },
            _ => {},
        }
    }

    /// Whether `rate` may be called with these values: the review stays in the range
    /// of the counters and of the calendar.
    pub fn can_rate(&self, quality: u8, grown_interval: u32) -> (r: bool)
        ensures
            r == rating_allowed(self@, quality, grown_interval),
    {
        let pending = match &self.state {
            AppState::Study { rating_pending, .. } => *rating_pending,
            _ => false,
        };
        if !pending {
            return true;
        }
        let (_id, before) = self.current_progress();
        let reps_ok = quality < 2 || before.repetitions < u32::MAX;
        let interval: u32 = if quality < 2 {
            1
        } else if before.repetitions == 0 {
            1
        } else if before.repetitions == 1 {
            6
        } else {
            grown_interval
        };
        let today = self.today;
        let day_ok = crate::date::FIRST_DAY <= today && today <= crate::date::LAST_DAY;
        let end_ok = (today as i64) + (interval as i64) <= (crate::date::LAST_DAY as i64);
        quality <= 3 && reps_ok && day_ok && end_ok
    }

    /// Records the rating of the current card, with the floating-point half of the
    /// review computed by the caller for the `RatingRequest` the rating key returned.
    pub fn rate(&mut self, quality: u8, ease_factor_bits: u64, grown_interval: u32)
        requires
            rating_allowed(old(self)@, quality, grown_interval),
        ensures
            final(self)@ == rated(old(self)@, quality, ease_factor_bits, grown_interval),
    {
        proof {
            use_type_invariant(&*self);
        }
        let pending = match &self.state {
            AppState::Study { rating_pending, .. } => *rating_pending,
            _ => false,
        };
        if !pending {
            return;
        }
        let (id, before) = self.current_progress();
        let mut after = before;
        sm2_update(&mut after, quality, self.today, ease_factor_bits, grown_interval);
        self.store_update(id.clone(), after);
        proof {
            use_type_invariant(&*self);
        }
        let st = self.take_state();
        assert(state_wf(st@));
        match st {
            AppState::Study {
                due_cards,
                current_index,
                cram,
                session_history,
                ratings_given,
                ..
            } => {
                let mut history = session_history;
                let mut ratings = ratings_given;
                let ghost h = history@;
                history.push((id, before));
                ratings.push(quality);
                assert(history_view(history@) =~= history_view(h).push((id@, before)));
                if due_cards.len() - current_index > 1 {
                    self.state = AppState::Study {
                        due_cards,
                        current_index: current_index + 1,
                        show_back: false,
                        rating_pending: false,
                        cram,
                        session_history: history,
                        ratings_given: ratings,
                    };
                } else {
                    let language = due_cards[0].language.clone();
                    self.state = AppState::Stats {
                        cards_reviewed: ratings.len(),
                        ratings,
                        language,
                        cram,
                    };
                }
            },
            _ => {},
        }
    }
}

} // verus!

verus! {

/// Rating a card and then going back one card (key `b`) gives the session back exactly
/// as it was before the rating; the progress store differs only in that a card rated
/// for the first time keeps the first-review default progress (due today) instead of
/// having none. This holds for every card but the last, whose rating ends the session.
pub proof fn lemma_undo_restores_rating(
    a: AppView,
    quality: u8,
    ease_factor_bits: u64,
    grown_interval: u32,
    b: AppView,
    action: Action,
)
    requires
        state_wf(a.state),
        a.state is Study,
        a.state->rating_pending,
        a.state->current_index + 1 < a.state->due_cards.len(),
        key_step(rated(a, quality, ease_factor_bits, grown_interval), Key::Char('b'), b, action),
    ensures
        action == Action::Continue,
        b.state == a.state,
        b.selected == a.selected,
        b.languages == a.languages,
        b.cards == a.cards,
        b.today == a.today,
        b.store == a.store.insert(
            current_key(a.state),
            progress_before(a.store, a.today, current_key(a.state)),
        ),
        a.store.contains_key(current_key(a.state)) ==> b == a,
{
    let r = rated(a, quality, ease_factor_bits, grown_interval);
    let id = current_key(a.state);
    assert(rating_of('b') is None);
    assert(b == undone(r));
    assert(r.state->history.last() == (id, progress_before(a.store, a.today, id)));
    assert(r.state->history.drop_last() =~= a.state->history);
    assert(r.state->Study_ratings.drop_last() =~= a.state->Study_ratings);
    assert(b.store =~= a.store.insert(id, progress_before(a.store, a.today, id)));
    assert(b.state =~= a.state);
    if a.store.contains_key(id) {
        assert(b.store =~= a.store);
        assert(b =~= a);
    }
}

/// After a card is rated on day `today`, it is due on day `d` exactly when `d` is
/// at least its new interval after `today`: a failed card (quality below 2) is due
/// again the next day.
pub proof fn lemma_rated_card_due_after_interval(
    a: AppView,
    quality: u8,
    ease_factor_bits: u64,
    grown_interval: u32,
    d: i32,
)
    requires
        state_wf(a.state),
        a.state is Study,
        a.state->rating_pending,
        rating_allowed(a, quality, grown_interval),
    ensures
        ({
            let card = a.state->due_cards[a.state->current_index as int];
            let before = progress_before(a.store, a.today, card_key(card));
            let after = rated(a, quality, ease_factor_bits, grown_interval);
            &&& is_due(after.store, d, card) <==> d >= a.today + sm2_interval(
                before,
                quality,
                grown_interval,
            )
            &&& quality < 2 ==> (is_due(after.store, d, card) <==> d >= a.today + 1)
        }),
{
}

/// A card just rated is not due again the same day: no card with its identifier is
/// among the due cards of any deck and language, as long as the card had a positive
/// interval and the floating-point half grew it (see `interval_grows`).
pub proof fn lemma_rated_card_not_due_today(
    a: AppView,
    quality: u8,
    ease_factor_bits: u64,
    grown_interval: u32,
    all: Seq<Card>,
    lang: Seq<char>,
    c: Card,
)
    requires
        state_wf(a.state),
        a.state is Study,
        a.state->rating_pending,
        rating_allowed(a, quality, grown_interval),
        progress_before(a.store, a.today, current_key(a.state)).interval >= 1,
        interval_grows(progress_before(a.store, a.today, current_key(a.state)), grown_interval),
        card_key(c) == current_key(a.state),
    ensures
        !is_due(rated(a, quality, ease_factor_bits, grown_interval).store, a.today, c),
        !all.filter(
            due_in_language(rated(a, quality, ease_factor_bits, grown_interval).store, a.today, lang),
        ).contains(c),
{
    let before = progress_before(a.store, a.today, current_key(a.state));
    lemma_review_schedules_ahead(before, quality, a.today, ease_factor_bits, grown_interval);
    let store = rated(a, quality, ease_factor_bits, grown_interval).store;
    let pred = due_in_language(store, a.today, lang);
    if all.filter(pred).contains(c) {
        let t = choose|t: int| 0 <= t < all.filter(pred).len() && all.filter(pred)[t] == c;
        all.lemma_filter_pred(pred, t);
    }
}

/// Rating the last card of a session ends it with the statistics of as many reviews
/// as the session had cards.
pub proof fn lemma_last_rating_ends_session(
    a: AppView,
    quality: u8,
    ease_factor_bits: u64,
    grown_interval: u32,
)
    requires
        state_wf(a.state),
        a.state is Study,
        a.state->rating_pending,
        a.state->current_index + 1 == a.state->due_cards.len(),
    ensures
        ({
            let b = rated(a, quality, ease_factor_bits, grown_interval);
            &&& b.state is Stats
            &&& b.state->cards_reviewed == a.state->due_cards.len()
            &&& b.state->Stats_language == a.state->due_cards[0].language@
        }),
{
}

/// Rating keeps what holds of every screen.
pub proof fn lemma_rating_keeps_wf(a: AppView, quality: u8, ease_factor_bits: u64, grown_interval: u32)
    requires
        state_wf(a.state),
        rating_allowed(a, quality, grown_interval),
    ensures
        state_wf(rated(a, quality, ease_factor_bits, grown_interval).state),
{
    let b = rated(a, quality, ease_factor_bits, grown_interval);
    if a.state is Study && a.state->rating_pending {
        let r = a.state->Study_ratings.push(quality);
        assert forall|i: int| 0 <= i < r.len() implies #[trigger] r[i] <= 3 by {
            if i < r.len() - 1 {
                assert(r[i] == a.state->Study_ratings[i]);
            }
        }
        let id = current_key(a.state);
        let h = a.state->history.push((id, progress_before(a.store, a.today, id)));
        assert forall|i: int| 0 <= i < a.state->current_index + 1 implies #[trigger] h[i].0
            == card_key(a.state->due_cards[i]) by {
            if i < a.state->current_index {
                assert(h[i] == a.state->history[i]);
            }
        }
    }
}

/// Every key press keeps what holds of every screen.
pub proof fn lemma_key_keeps_wf(a: AppView, key: Key, b: AppView, action: Action)
    requires
        state_wf(a.state),
        key_step(a, key, b, action),
    ensures
        state_wf(b.state),
{
    if b.state is Study {
        b.state->due_cards.to_multiset_ensures();
    }
    if a.state is GroupSelect && key != Key::Char('q') {
        let groups = a.state->groups;
        if a.selected is Some && a.selected->0 < groups.len() {
            let language = a.state->GroupSelect_language;
            let chosen = groups[a.selected->0 as int];
            let cards = if key == Key::Enter {
                if chosen == all_groups_label() {
                    a.cards.filter(due_in_language(a.store, a.today, language))
                } else {
                    a.cards.filter(due_in_group(a.store, a.today, language, chosen))
                }
            } else if chosen == all_groups_label() {
                a.cards.filter(of_language(language))
            } else {
                a.cards.filter(of_group(language, chosen))
            };
            cards.to_multiset_ensures();
        }
    }
    if a.state is Study && key is Char && key->0 == 'b' && a.state->current_index > 0 {
        let r = a.state->Study_ratings.drop_last();
        assert forall|i: int| 0 <= i < r.len() implies #[trigger] r[i] <= 3 by {
            assert(r[i] == a.state->Study_ratings[i]);
        }
        assert forall|i: int| 0 <= i < b.state->current_index implies #[trigger] b.state->history[i].0
            == card_key(b.state->due_cards[i]) by {
            assert(b.state->history[i] == a.state->history[i]);
        }
    }
}

/// The arrow keys keep the highlighted line of a menu within the menu.
pub proof fn lemma_arrows_stay_in_menu(a: AppView, key: Key, b: AppView, action: Action)
    requires
        key == Key::Up || key == Key::Down,
        key_step(a, key, b, action),
        a.state is LanguageSelect ==> a.selected is Some && a.selected->0 < a.languages.len(),
        a.state is GroupSelect ==> a.selected is Some && a.selected->0 < a.state->groups.len(),
    ensures
        a.state is LanguageSelect ==> b.selected is Some && b.selected->0 < a.languages.len(),
        a.state is GroupSelect ==> b.selected is Some && b.selected->0 < a.state->groups.len(),
{
}

} // verus!

verus! {

/// The digit keys rate the shown card with their own value: while a rating is awaited,
/// `0`, `1`, `2` and `3` ask for a review of quality 0, 1, 2 and 3 of the current card,
/// from its stored progress (or, for a card never rated, from an interval of one day
/// and the ease factor 2.5), and change nothing yet.
pub proof fn lemma_digit_asks_for_its_rating(a: AppView, c: char, b: AppView, action: Action)
    requires
        a.state is Study,
        a.state->rating_pending,
        '0' <= c && c <= '3',
        key_step(a, Key::Char(c), b, action),
    ensures
        b == a,
        action is Rate,
        action->Rate_0.quality as int == c as int - '0' as int,
        c == '0' ==> action->Rate_0.quality == 0,
        c == '1' ==> action->Rate_0.quality == 1,
        c == '2' ==> action->Rate_0.quality == 2,
        c == '3' ==> action->Rate_0.quality == 3,
        ({
            let id = card_key(a.state->due_cards[a.state->current_index as int]);
            &&& a.store.contains_key(id) ==> action->Rate_0.ease_factor_bits
                == a.store[id].ease_factor_bits && action->Rate_0.interval == a.store[id].interval
            &&& !a.store.contains_key(id) ==> action->Rate_0.ease_factor_bits == INITIAL_EASE_BITS
                && action->Rate_0.interval == 1
        }),
{
}

/// A digit key before the answer is shown does nothing.
pub proof fn lemma_digit_waits_for_the_answer(a: AppView, c: char, b: AppView, action: Action)
    requires
        a.state is Study,
        !a.state->rating_pending,
        '0' <= c && c <= '3',
        key_step(a, Key::Char(c), b, action),
    ensures
        b == a,
        action == Action::Continue,
{
}

/// Recording a rating: the current card's progress becomes the reviewed one (with the
/// ease factor computed for this review, whatever the quality), every other card keeps
/// its progress, the quality given joins the session's ratings, and the session moves
/// to the next card front side up, or after the last card shows the statistics.
pub proof fn lemma_rating_records(a: AppView, quality: u8, ease_factor_bits: u64, grown_interval: u32)
    requires
        state_wf(a.state),
        a.state is Study,
        a.state->rating_pending,
        rating_allowed(a, quality, grown_interval),
    ensures
        ({
            let b = rated(a, quality, ease_factor_bits, grown_interval);
            let idx = a.state->current_index;
            let id = card_key(a.state->due_cards[idx as int]);
            let old_reps = if a.store.contains_key(id) { a.store[id].repetitions as int } else { 0int };
            &&& b.store.contains_key(id)
            &&& b.store[id].ease_factor_bits == ease_factor_bits
            &&& b.store[id].last_review == Some(a.today)
            &&& b.store[id].next_review == a.today + b.store[id].interval
            &&& quality < 2 ==> b.store[id].repetitions == 0 && b.store[id].interval == 1
            &&& quality >= 2 ==> b.store[id].repetitions == old_reps + 1
            &&& forall|k: Seq<char>| k != id ==> (#[trigger] b.store.contains_key(k) == a.store.contains_key(k)
                && (a.store.contains_key(k) ==> b.store[k] == a.store[k]))
            &&& b.selected == a.selected && b.cards == a.cards && b.languages == a.languages
            &&& b.today == a.today
            &&& if idx + 1 < a.state->due_cards.len() {
                &&& b.state is Study
                &&& b.state->current_index == idx + 1
                &&& !b.state->show_back && !b.state->rating_pending
                &&& b.state->Study_ratings == a.state->Study_ratings.push(quality)
                &&& b.state->due_cards == a.state->due_cards
            } else {
                &&& b.state is Stats
                &&& b.state->Stats_ratings == a.state->Study_ratings.push(quality)
                &&& b.state->cards_reviewed == a.state->due_cards.len()
                &&& b.state->Stats_language == a.state->due_cards[0].language@
            }
        }),
{
    let id = current_key(a.state);
    let before = progress_before(a.store, a.today, id);
    lemma_review_outcome(before, quality, a.today, ease_factor_bits, grown_interval);
}

/// Going back with `b` from any card after the first, whether or not its answer is
/// shown: the previous card's progress is put back as it was before its rating, its
/// rating is forgotten, and it waits, back side up, for a new rating.
pub proof fn lemma_back_restores_previous_card(a: AppView, b: AppView, action: Action)
    requires
        state_wf(a.state),
        a.state is Study,
        a.state->current_index > 0,
        key_step(a, Key::Char('b'), b, action),
    ensures
        action == Action::Continue,
        ({
            let idx = a.state->current_index;
            let (id, before) = a.state->history.last();
            &&& id == card_key(a.state->due_cards[idx - 1])
            &&& b.store == a.store.insert(id, before)
            &&& b.state is Study
            &&& b.state->current_index == idx - 1
            &&& b.state->show_back && b.state->rating_pending
            &&& b.state->due_cards == a.state->due_cards
            &&& b.state->history == a.state->history.drop_last()
            &&& b.state->Study_ratings == a.state->Study_ratings.drop_last()
            &&& b.state->Study_cram == a.state->Study_cram
            &&& b.selected == a.selected && b.cards == a.cards && b.languages == a.languages
            &&& b.today == a.today
        }),
{
    assert(rating_of('b') is None);
}

/// Going back on the first card of a session does nothing.
pub proof fn lemma_back_on_first_card_does_nothing(a: AppView, b: AppView, action: Action)
    requires
        a.state is Study,
        a.state->current_index == 0,
        key_step(a, Key::Char('b'), b, action),
    ensures
        b == a,
        action == Action::Continue,
{
    assert(rating_of('b') is None);
}

/// Esc leaves a study session or the group menu for the language menu, first line
/// highlighted, and the program goes on.
pub proof fn lemma_esc_goes_back(a: AppView, b: AppView, action: Action)
    requires
        a.state is Study || a.state is GroupSelect,
        key_step(a, Key::Esc, b, action),
    ensures
        action == Action::Continue,
        b.state == StateView::LanguageSelect,
        b.selected == Some(0usize),
        b.store == a.store && b.cards == a.cards && b.languages == a.languages && b.today == a.today,
{
}

/// The program ends only on `q`, on Esc at the language menu, or once it has quit;
/// `q` ends it from every screen.
pub proof fn lemma_only_q_or_esc_on_languages_exits(a: AppView, key: Key, b: AppView, action: Action)
    requires
        key_step(a, key, b, action),
    ensures
        action == Action::Exit ==> (key == Key::Char('q') || (a.state is LanguageSelect && key == Key::Esc)
            || a.state is Quit),
        key == Key::Char('q') ==> action == Action::Exit && b.state == StateView::Quit,
        action == Action::Exit ==> b.store == a.store,
{
}

/// Space shows the answer of the current card and waits for its rating; nothing else
/// changes.
pub proof fn lemma_space_shows_the_answer(a: AppView, b: AppView, action: Action)
    requires
        a.state is Study,
        !a.state->rating_pending,
        key_step(a, Key::Char(' '), b, action),
    ensures
        action == Action::Continue,
        b.state is Study,
        b.state->show_back && b.state->rating_pending,
        b.state->current_index == a.state->current_index,
        b.state->due_cards == a.state->due_cards,
        b.state->history == a.state->history,
        b.state->Study_ratings == a.state->Study_ratings,
        b.store == a.store && b.selected == a.selected,
{
}

/// Enter on a language of the menu opens its group menu, first line highlighted: the
/// all-groups line "Todos los grupos", then each group of the language's cards once,
/// in `String` order.
pub proof fn lemma_enter_opens_group_menu(a: AppView, b: AppView, action: Action)
    requires
        a.state is LanguageSelect,
        a.selected is Some,
        a.selected->0 < a.languages.len(),
        key_step(a, Key::Enter, b, action),
    ensures
        action == Action::Continue,
        b.state is GroupSelect,
        b.state->GroupSelect_language == a.languages[a.selected->0 as int],
        b.selected == Some(0usize),
        b.state->groups.len() >= 1,
        b.state->groups[0] == "Todos los grupos"@,
        strictly_sorted(b.state->groups.drop_first()),
        forall|g: Seq<char>|
            b.state->groups.drop_first().contains(g) <==> has_group(
                a.cards,
                a.languages[a.selected->0 as int],
                g,
            ),
        b.store == a.store && b.cards == a.cards && b.languages == a.languages,
{
}

/// The arrow keys move the highlight one line: up unless on the first line, down
/// unless on the last line of the menu shown.
pub proof fn lemma_arrows_move_one_line(a: AppView, key: Key, b: AppView, action: Action, s: usize)
    requires
        a.state is LanguageSelect || a.state is GroupSelect,
        a.selected == Some(s),
        key == Key::Up || key == Key::Down,
        key_step(a, key, b, action),
    ensures
        action == Action::Continue,
        b.state == a.state,
        ({
            let n = if a.state is LanguageSelect { a.languages.len() } else { a.state->groups.len() };
            &&& key == Key::Up && s > 0 ==> b.selected == Some((s - 1) as usize)
            &&& key == Key::Up && s == 0 ==> b.selected == Some(0usize)
            &&& key == Key::Down && s + 1 < n ==> b.selected == Some((s + 1) as usize)
            &&& key == Key::Down && s + 1 >= n ==> b.selected == Some(s)
        }),
{
}

/// C on a line of the group menu starts a cram session of every card of the language
/// (all-groups line) or of the chosen group, whatever their schedule.
pub proof fn lemma_cram_takes_every_card(a: AppView, b: AppView, action: Action, c: Card)
    requires
        a.state is GroupSelect,
        a.selected is Some,
        a.selected->0 < a.state->groups.len(),
        key_step(a, Key::Char('c'), b, action),
    ensures
        action == Action::Continue,
        ({
            let lang = a.state->GroupSelect_language;
            let chosen = a.state->groups[a.selected->0 as int];
            let taken = a.cards.contains(c) && c.language@ == lang && (chosen == "Todos los grupos"@
                || c.group@ == chosen);
            &&& b.state is Study ==> (b.state->due_cards.contains(c) <==> taken)
            &&& b.state is Study ==> b.state->Study_cram && b.state->current_index == 0
            &&& taken ==> b.state is Study
        }),
{
    let lang = a.state->GroupSelect_language;
    let chosen = a.state->groups[a.selected->0 as int];
    let cards = if chosen == all_groups_label() {
        a.cards.filter(of_language(lang))
    } else {
        a.cards.filter(of_group(lang, chosen))
    };
    lemma_cram_cards_of(a.cards, lang, chosen, c);
    cards.to_multiset_ensures();
    assert(session_started(a, b, cards, true));
    if b.state is Study {
        b.state->due_cards.to_multiset_ensures();
        assert(b.state->due_cards.to_multiset() == cards.to_multiset());
        assert(b.state->due_cards.contains(c) <==> b.state->due_cards.to_multiset().count(c) > 0);
        assert(cards.contains(c) <==> cards.to_multiset().count(c) > 0);
    }
    if chosen == all_groups_label() {
        assert(cards.contains(c) <==> (a.cards.contains(c) && c.language@ == lang));
    } else {
        assert(cards.contains(c) <==> (a.cards.contains(c) && c.language@ == lang && c.group@ == chosen));
    }
    if a.cards.contains(c) && c.language@ == lang && (chosen == all_groups_label() || c.group@ == chosen) {
        assert(cards.contains(c));
        assert(cards.len() > 0);
    }
}

/// From the statistics, any key but `q` goes back to the language menu.
pub proof fn lemma_stats_any_key_back(a: AppView, key: Key, b: AppView, action: Action)
    requires
        a.state is Stats,
        key != Key::Char('q'),
        key_step(a, key, b, action),
    ensures
        action == Action::Continue,
        b.state == StateView::LanguageSelect,
        b.selected == Some(0usize),
        b.store == a.store,
{
}

/// Enter on a line of the group menu studies exactly the due cards of the language
/// (all-groups line) or of the chosen group, in some order: those never rated and
/// those whose next review is not after today; with none due, it is back to the
/// language menu.
pub proof fn lemma_review_takes_due_cards(a: AppView, b: AppView, action: Action, c: Card)
    requires
        a.state is GroupSelect,
        a.selected is Some,
        a.selected->0 < a.state->groups.len(),
        key_step(a, Key::Enter, b, action),
    ensures
        action == Action::Continue,
        ({
            let lang = a.state->GroupSelect_language;
            let chosen = a.state->groups[a.selected->0 as int];
            let due = a.cards.contains(c) && c.language@ == lang && (chosen == "Todos los grupos"@
                || c.group@ == chosen) && (!a.store.contains_key(card_key(c))
                || a.store[card_key(c)].next_review <= a.today);
            &&& b.state is Study ==> (b.state->due_cards.contains(c) <==> due)
            &&& b.state is Study ==> !b.state->Study_cram && b.state->current_index == 0
            &&& due ==> b.state is Study
        }),
{
    let lang = a.state->GroupSelect_language;
    let chosen = a.state->groups[a.selected->0 as int];
    let cards = if chosen == all_groups_label() {
        a.cards.filter(due_in_language(a.store, a.today, lang))
    } else {
        a.cards.filter(due_in_group(a.store, a.today, lang, chosen))
    };
    lemma_due_cards_of_language(a.cards, a.store, a.today, lang, c);
    assert(a.cards.filter(due_in_group(a.store, a.today, lang, chosen)).contains(c) <==> (a.cards.filter(
        due_in_language(a.store, a.today, lang),
    ).contains(c) && c.group@ == chosen));
    cards.to_multiset_ensures();
    assert(session_started(a, b, cards, false));
    if b.state is Study {
        b.state->due_cards.to_multiset_ensures();
        assert(cards.len() > 0);
        assert(b.state->due_cards.to_multiset() == cards.to_multiset());
        assert(b.state->due_cards.contains(c) <==> b.state->due_cards.to_multiset().count(c) > 0);
        assert(cards.contains(c) <==> cards.to_multiset().count(c) > 0);
    }
    let due = a.cards.contains(c) && c.language@ == lang && (chosen == all_groups_label()
        || c.group@ == chosen) && (!a.store.contains_key(card_key(c))
        || a.store[card_key(c)].next_review <= a.today);
    assert(cards.contains(c) <==> due);
    if due {
        assert(cards.len() > 0);
    }
}

} // verus!
