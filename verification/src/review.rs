use vstd::prelude::*;
use crate::card::{card_id, card_key, of_group, of_language, Card};
use crate::progress::Progress;
use crate::store::ProgressStore;

verus! {

/// A card is due when it has never been rated or its next review is not after today.
pub open spec fn is_due(store: Map<Seq<char>, Progress>, today: i32, c: Card) -> bool {
    !store.contains_key(card_key(c)) || store[card_key(c)].next_review <= today
}

/// Due cards of a language.
pub open spec fn due_in_language(store: Map<Seq<char>, Progress>, today: i32, lang: Seq<char>) -> spec_fn(
    Card,
) -> bool {
    |c: Card| c.language@ == lang && is_due(store, today, c)
}

/// Due cards of one group of a language.
pub open spec fn due_in_group(
    store: Map<Seq<char>, Progress>,
    today: i32,
    lang: Seq<char>,
    group: Seq<char>,
) -> spec_fn(Card) -> bool {
    |c: Card| c.language@ == lang && c.group@ == group && is_due(store, today, c)
}

fn card_is_due(card: &Card, store: &ProgressStore, today: i32) -> (r: bool)
    ensures
        r == is_due(store@, today, *card),
{
    let id = card_id(card);
    match store.get(id.as_str()) {
        None => true,
        Some(p) => p.next_review <= today,
    }
}

/// The cards of a language that are due for review on `today`, in deck order.
pub fn filter_due_cards(all: &[Card], lang: &str, store: &ProgressStore, today: i32) -> (r: Vec<
    Card,
>)
    ensures
        r@ == all@.filter(due_in_language(store@, today, lang@)),
{
    let lang = lang.to_owned();
    let mut r: Vec<Card> = Vec::new();
    let mut i: usize = 0;
    while i < all.len()
        invariant
            i <= all@.len(),
            r@ == all@.take(i as int).filter(due_in_language(store@, today, lang@)),
        decreases all@.len() - i,
    {
        proof {
            reveal(Seq::filter);
            assert(all@.take(i + 1).drop_last() =~= all@.take(i as int));
        }
        if all[i].language == lang && card_is_due(&all[i], store, today) {
            r.push(all[i].clone());
        }
        i = i + 1;
    }
    assert(all@.take(all@.len() as int) =~= all@);
    r
}

/// The cards of one group of a language that are due for review on `today`, in deck order.
pub fn filter_due_cards_by_group(
    all: &[Card],
    lang: &str,
    group: &str,
    store: &ProgressStore,
    today: i32,
) -> (r: Vec<Card>)
    ensures
        r@ == all@.filter(due_in_group(store@, today, lang@, group@)),
{
    let lang = lang.to_owned();
    let group = group.to_owned();
    let mut r: Vec<Card> = Vec::new();
    let mut i: usize = 0;
    while i < all.len()
        invariant
            i <= all@.len(),
            r@ == all@.take(i as int).filter(due_in_group(store@, today, lang@, group@)),
        decreases all@.len() - i,
    {
        proof {
            reveal(Seq::filter);
            assert(all@.take(i + 1).drop_last() =~= all@.take(i as int));
        }
        if all[i].language == lang && all[i].group == group && card_is_due(&all[i], store, today) {
            r.push(all[i].clone());
        }
        i = i + 1;
    }
    assert(all@.take(all@.len() as int) =~= all@);
    r
}

/// The due cards of a language are the deck's cards of that language that were never
/// rated or whose next review is not after today; those of a group are the ones of
/// that group among them (the same due test).
pub proof fn lemma_due_cards_of_language(
    all: Seq<Card>,
    store: Map<Seq<char>, Progress>,
    today: i32,
    lang: Seq<char>,
    c: Card,
)
    ensures
        forall|g: Seq<char>|
            #[trigger] all.filter(due_in_group(store, today, lang, g)).contains(c) <==> (all.filter(
                due_in_language(store, today, lang),
            ).contains(c) && c.group@ == g),
        all.filter(due_in_language(store, today, lang)).contains(c) <==> (all.contains(c)
            && c.language@ == lang && (!store.contains_key(card_key(c))
            || store[card_key(c)].next_review <= today)),
        all.filter(due_in_group(store, today, lang, c.group@)).contains(c) <==> all.filter(
            due_in_language(store, today, lang),
        ).contains(c),
        all.contains(c) && c.language@ == lang && !store.contains_key(card_key(c)) ==> all.filter(
            due_in_language(store, today, lang),
        ).contains(c),
{
    let p = due_in_language(store, today, lang);
    let q = due_in_group(store, today, lang, c.group@);
    if all.filter(p).contains(c) {
        all.lemma_filter_contains_rev(p, c);
        let t = choose|t: int| 0 <= t < all.filter(p).len() && all.filter(p)[t] == c;
        all.lemma_filter_pred(p, t);
    }
    if all.filter(q).contains(c) {
        all.lemma_filter_contains_rev(q, c);
        let t = choose|t: int| 0 <= t < all.filter(q).len() && all.filter(q)[t] == c;
        all.lemma_filter_pred(q, t);
    }
    if all.contains(c) && p(c) {
        let i = choose|i: int| 0 <= i < all.len() && all[i] == c;
        all.lemma_filter_contains(p, i);
        all.lemma_filter_contains(q, i);
    }
    assert forall|g: Seq<char>|
        #[trigger] all.filter(due_in_group(store, today, lang, g)).contains(c) <==> (all.filter(
            due_in_language(store, today, lang),
        ).contains(c) && c.group@ == g) by {
        let r = due_in_group(store, today, lang, g);
        if all.filter(r).contains(c) {
            all.lemma_filter_contains_rev(r, c);
            let t = choose|t: int| 0 <= t < all.filter(r).len() && all.filter(r)[t] == c;
            all.lemma_filter_pred(r, t);
        }
        if all.contains(c) && r(c) {
            let i = choose|i: int| 0 <= i < all.len() && all[i] == c;
            all.lemma_filter_contains(r, i);
        }
    }
}

/// A due card stays due: the schedule never moves a card away while no review happens.
pub proof fn lemma_due_stays_due(store: Map<Seq<char>, Progress>, c: Card, d1: i32, d2: i32)
    requires
        d1 <= d2,
        is_due(store, d1, c),
    ensures
        is_due(store, d2, c),
{
}

/// A review session takes its cards among those a cram session of the same choice
/// would take: every due card of a language (or of a group) is one of its cards.
pub proof fn lemma_due_cards_are_cram_cards(
    all: Seq<Card>,
    store: Map<Seq<char>, Progress>,
    today: i32,
    lang: Seq<char>,
    group: Seq<char>,
    c: Card,
)
    ensures
        all.filter(due_in_language(store, today, lang)).contains(c) ==> all.filter(
            of_language(lang),
        ).contains(c),
        all.filter(due_in_group(store, today, lang, group)).contains(c) ==> all.filter(
            of_group(lang, group),
        ).contains(c),
{
    broadcast use Seq::lemma_filter_pred, Seq::lemma_filter_contains;
    if all.filter(due_in_language(store, today, lang)).contains(c) {
        all.lemma_filter_contains_rev(due_in_language(store, today, lang), c);
        let j = choose|j: int| 0 <= j < all.filter(due_in_language(store, today, lang)).len()
            && all.filter(due_in_language(store, today, lang))[j] == c;
        assert(due_in_language(store, today, lang)(c));
        let i = choose|i: int| 0 <= i < all.len() && all[i] == c;
        assert(of_language(lang)(all[i]));
    }
    if all.filter(due_in_group(store, today, lang, group)).contains(c) {
        all.lemma_filter_contains_rev(due_in_group(store, today, lang, group), c);
        let j = choose|j: int| 0 <= j < all.filter(due_in_group(store, today, lang, group)).len()
            && all.filter(due_in_group(store, today, lang, group))[j] == c;
        assert(due_in_group(store, today, lang, group)(c));
        let i = choose|i: int| 0 <= i < all.len() && all[i] == c;
        assert(of_group(lang, group)(all[i]));
    }
}

} // verus!
