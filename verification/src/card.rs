use vstd::prelude::*;
use crate::files::{language_of, language_views, lemma_language_of_slash};
use crate::order::{insert_sorted, strictly_sorted};

verus! {

/// One entry of a deck file: a word and what the back of the card shows.
pub struct RawCard {
    pub word: String,
    pub translation: String,
    pub meaning: String,
    pub ipa: String,
}

/// A card together with the language and the group (deck path) it was found in.
pub struct Card {
    pub language: String,
    pub group: String,
    pub raw: RawCard,
}

impl Clone for RawCard {
    fn clone(&self) -> (r: Self)
        ensures
            r == *self,
    {
        RawCard {
            word: self.word.clone(),
            translation: self.translation.clone(),
            meaning: self.meaning.clone(),
            ipa: self.ipa.clone(),
        }
    }
}

impl Clone for Card {
    fn clone(&self) -> (r: Self)
        ensures
            r == *self,
    {
        Card { language: self.language.clone(), group: self.group.clone(), raw: self.raw.clone() }
    }
}

/// The identifier under which a card's progress is stored: `language/group/word`.
pub open spec fn card_key(c: Card) -> Seq<char> {
    c.language@ + seq!['/'] + c.group@ + seq!['/'] + c.raw.word@
}

pub fn card_id(card: &Card) -> (id: String)
    ensures
        id@ == card_key(*card),
{
    let mut id = card.language.clone();
    id.append("/");
    id.append(card.group.as_str());
    id.append("/");
    id.append(card.raw.word.as_str());
    proof {
        reveal_strlit("/");
    }
    id
}


/// A card's identifier belongs to the card's language when the language holds no `/`
/// (languages are directory names): the card's progress is saved in its language's file.
pub proof fn lemma_card_id_language(c: Card)
    requires
        forall|i: int| 0 <= i < c.language@.len() ==> c.language@[i] != '/',
    ensures
        language_of(card_key(c)) == c.language@,
{
    let rest = c.group@ + seq!['/'] + c.raw.word@;
    lemma_language_of_slash(c.language@, rest);
    assert(card_key(c) =~= c.language@ + seq!['/'] + rest);
}

/// The group of a deck found under the name `name` (a directory or a file's stem) in
/// the group `parent`: the name itself at the top of a language, `parent/name` below.
pub open spec fn child_group(parent: Seq<char>, name: Seq<char>) -> Seq<char> {
    if parent.len() == 0 {
        name
    } else {
        parent + seq!['/'] + name
    }
}

/// The group path of a deck, as the deck directories are walked.
pub fn group_path(parent_group: &str, name: &str) -> (group: String)
    ensures
        group@ == child_group(parent_group@, name@),
{
    if parent_group.is_empty() {
        name.to_owned()
    } else {
        let mut group = parent_group.to_owned();
        group.append("/");
        group.append(name);
        proof {
            reveal_strlit("/");
        }
        group
    }
}

/// Adds the cards of one deck file, in the file's order, with their language and group.
pub fn add_deck(cards: &mut Vec<Card>, language: &str, group: &str, raws: Vec<RawCard>)
    ensures
        final(cards)@.len() == old(cards)@.len() + raws@.len(),
        forall|i: int| 0 <= i < old(cards)@.len() ==> #[trigger] final(cards)@[i] == old(cards)@[i],
        forall|j: int|
            0 <= j < raws@.len() ==> {
                let c = #[trigger] final(cards)@[old(cards)@.len() + j];
                &&& c.language@ == language@
                &&& c.group@ == group@
                &&& c.raw == raws@[j]
            },
{
    let ghost start = cards@;
    let mut i: usize = 0;
    while i < raws.len()
        invariant
            i <= raws@.len(),
            cards@.len() == start.len() + i,
            forall|k: int| 0 <= k < start.len() ==> #[trigger] cards@[k] == start[k],
            forall|j: int|
                0 <= j < i ==> {
                    let c = #[trigger] cards@[start.len() + j];
                    &&& c.language@ == language@
                    &&& c.group@ == group@
                    &&& c.raw == raws@[j]
                },
        decreases raws@.len() - i,
    {
        cards.push(Card { language: language.to_owned(), group: group.to_owned(), raw: raws[i].clone() });
        i = i + 1;
    }
}

/// Cards of the given language.
pub open spec fn of_language(lang: Seq<char>) -> spec_fn(Card) -> bool {
    |c: Card| c.language@ == lang
}

/// Cards of the given language and group.
pub open spec fn of_group(lang: Seq<char>, group: Seq<char>) -> spec_fn(Card) -> bool {
    |c: Card| c.language@ == lang && c.group@ == group
}

/// All cards of a language, in deck order (a cram session ignores the schedule).
pub fn collect_cram_cards(all: &[Card], lang: &str) -> (r: Vec<Card>)
    ensures
        r@ == all@.filter(of_language(lang@)),
{
    let lang = lang.to_owned();
    let mut r: Vec<Card> = Vec::new();
    let mut i: usize = 0;
    while i < all.len()
        invariant
            i <= all@.len(),
            r@ == all@.take(i as int).filter(of_language(lang@)),
        decreases all@.len() - i,
    {
        proof {
            reveal(Seq::filter);
            assert(all@.take(i + 1).drop_last() =~= all@.take(i as int));
        }
        if all[i].language == lang {
            r.push(all[i].clone());
        }
        i = i + 1;
    }
    assert(all@.take(all@.len() as int) =~= all@);
    r
}

/// All cards of one group of a language, in deck order.
pub fn collect_cram_cards_by_group(all: &[Card], lang: &str, group: &str) -> (r: Vec<Card>)
    ensures
        r@ == all@.filter(of_group(lang@, group@)),
{
    let lang = lang.to_owned();
    let group = group.to_owned();
    let mut r: Vec<Card> = Vec::new();
    let mut i: usize = 0;
    while i < all.len()
        invariant
            i <= all@.len(),
            r@ == all@.take(i as int).filter(of_group(lang@, group@)),
        decreases all@.len() - i,
    {
        proof {
            reveal(Seq::filter);
            assert(all@.take(i + 1).drop_last() =~= all@.take(i as int));
        }
        if all[i].language == lang && all[i].group == group {
            r.push(all[i].clone());
        }
        i = i + 1;
    }
    assert(all@.take(all@.len() as int) =~= all@);
    r
}


/// Some card of the deck is of language `lang`.
pub open spec fn has_language(cards: Seq<Card>, lang: Seq<char>) -> bool {
    exists|i: int| 0 <= i < cards.len() && #[trigger] cards[i].language@ == lang
}

/// Some card of the deck is of language `lang` and group `group`.
pub open spec fn has_group(cards: Seq<Card>, lang: Seq<char>, group: Seq<char>) -> bool {
    exists|i: int|
        0 <= i < cards.len() && #[trigger] cards[i].language@ == lang && cards[i].group@ == group
}

/// The languages of the deck, each once, in `String` order: the language menu.
pub fn sorted_languages(cards: &[Card]) -> (langs: Vec<String>)
    ensures
        strictly_sorted(language_views(langs@)),
        forall|l: Seq<char>| language_views(langs@).contains(l) <==> has_language(cards@, l),
{
    let mut langs: Vec<String> = Vec::new();
    let mut i: usize = 0;
    while i < cards.len()
        invariant
            i <= cards@.len(),
            strictly_sorted(language_views(langs@)),
            forall|l: Seq<char>|
                language_views(langs@).contains(l) <==> has_language(cards@.take(i as int), l),
        decreases cards@.len() - i,
    {
        let ghost before = langs@;
        let l = cards[i].language.clone();
        assert(l@ == cards@[i as int].language@);
        insert_sorted(&mut langs, l);
        proof {
            assert forall|l: Seq<char>|
                has_language(cards@.take(i + 1), l) <==> (has_language(cards@.take(i as int), l)
                    || l == cards@[i as int].language@) by {
                if has_language(cards@.take(i + 1), l) {
                    let k = choose|k: int|
                        0 <= k < i + 1 && #[trigger] cards@.take(i + 1)[k].language@ == l;
                    if k < i {
                        assert(cards@.take(i as int)[k].language@ == l);
                    }
                }
                if has_language(cards@.take(i as int), l) {
                    let k = choose|k: int| 0 <= k < i && #[trigger] cards@.take(i as int)[k].language@ == l;
                    assert(cards@.take(i + 1)[k].language@ == l);
                }
                if l == cards@[i as int].language@ {
                    assert(cards@.take(i + 1)[i as int].language@ == l);
                }
            }
            assert forall|l: Seq<char>|
                language_views(langs@).contains(l) <==> has_language(cards@.take(i + 1), l) by {
                assert(language_views(before).contains(l) <==> has_language(cards@.take(i as int), l));
            }
        }
        i = i + 1;
    }
    assert(cards@.take(cards@.len() as int) =~= cards@);
    langs
}

/// The groups of one language, each once, in `String` order.
pub fn sorted_groups(cards: &[Card], lang: &str) -> (groups: Vec<String>)
    ensures
        strictly_sorted(language_views(groups@)),
        forall|g: Seq<char>| language_views(groups@).contains(g) <==> has_group(cards@, lang@, g),
{
    let lang = lang.to_owned();
    let mut groups: Vec<String> = Vec::new();
    let mut i: usize = 0;
    while i < cards.len()
        invariant
            i <= cards@.len(),
            strictly_sorted(language_views(groups@)),
            forall|g: Seq<char>|
                language_views(groups@).contains(g) <==> has_group(cards@.take(i as int), lang@, g),
        decreases cards@.len() - i,
    {
        let ghost before = groups@;
        if cards[i].language == lang {
            let g = cards[i].group.clone();
            assert(g@ == cards@[i as int].group@);
            insert_sorted(&mut groups, g);
        }
        proof {
            let c = cards@[i as int];
            assert forall|g: Seq<char>|
                has_group(cards@.take(i + 1), lang@, g) <==> (has_group(cards@.take(i as int), lang@, g)
                    || (c.language@ == lang@ && g == c.group@)) by {
                if has_group(cards@.take(i + 1), lang@, g) {
                    let k = choose|k: int|
                        0 <= k < i + 1 && #[trigger] cards@.take(i + 1)[k].language@ == lang@
                            && cards@.take(i + 1)[k].group@ == g;
                    if k < i {
                        assert(cards@.take(i as int)[k].language@ == lang@);
                    }
                }
                if has_group(cards@.take(i as int), lang@, g) {
                    let k = choose|k: int|
                        0 <= k < i && #[trigger] cards@.take(i as int)[k].language@ == lang@
                            && cards@.take(i as int)[k].group@ == g;
                    assert(cards@.take(i + 1)[k].language@ == lang@);
                }
                if c.language@ == lang@ && g == c.group@ {
                    assert(cards@.take(i + 1)[i as int].language@ == lang@);
                }
            }
            assert forall|g: Seq<char>|
                language_views(groups@).contains(g) <==> has_group(cards@.take(i + 1), lang@, g) by {
                assert(language_views(before).contains(g) <==> has_group(cards@.take(i as int), lang@, g));
            }
        }
        i = i + 1;
    }
    assert(cards@.take(cards@.len() as int) =~= cards@);
    groups
}

/// The cram cards of a language are the deck's cards of that language; those of a
/// group are the ones of that group among them.
pub proof fn lemma_cram_cards_of(all: Seq<Card>, lang: Seq<char>, group: Seq<char>, c: Card)
    ensures
        all.filter(of_language(lang)).contains(c) <==> (all.contains(c) && c.language@ == lang),
        all.filter(of_group(lang, group)).contains(c) <==> (all.contains(c) && c.language@ == lang
            && c.group@ == group),
{
    let p = of_language(lang);
    let q = of_group(lang, group);
    if all.filter(p).contains(c) {
        all.lemma_filter_contains_rev(p, c);
        let t = choose|t: int| 0 <= t < all.filter(p).len() && all.filter(p)[t] == c;
        all.lemma_filter_pred(p, t);
    }
    if all.filter(q).contains(c) {
        all.lemma_filter_contains_rev(q, c);
        let t = choose|t: int| 0 <= t < all.filter(q).len() && all.filter(q)[t] == c;
        all.lemma_filter_pred(q, t);
    }
    if all.contains(c) {
        let i = choose|i: int| 0 <= i < all.len() && all[i] == c;
        if p(c) {
            all.lemma_filter_contains(p, i);
        }
        if q(c) {
            all.lemma_filter_contains(q, i);
        }
    }
}

/// How many cards the cram sessions of the listed groups of a language take together.
pub open spec fn group_total(all: Seq<Card>, lang: Seq<char>, groups: Seq<Seq<char>>) -> nat
    decreases groups.len(),
{
    if groups.len() == 0 {
        0
    } else {
        group_total(all, lang, groups.drop_last()) + all.filter(of_group(lang, groups.last())).len()
    }
}

proof fn lemma_group_total_step(all: Seq<Card>, lang: Seq<char>, groups: Seq<Seq<char>>)
    requires
        all.len() > 0,
        groups.no_duplicates(),
    ensures
        group_total(all, lang, groups) == group_total(all.drop_last(), lang, groups) + (if all.last().language@
            == lang && groups.contains(all.last().group@) {
            1nat
        } else {
            0nat
        }),
    decreases groups.len(),
{
    reveal(Seq::filter);
    if groups.len() > 0 {
        let rest = groups.drop_last();
        let g = groups.last();
        assert forall|i: int, j: int| 0 <= i < rest.len() && 0 <= j < rest.len() && i != j implies rest[i]
            != rest[j] by {
            assert(groups[i] != groups[j]);
        }
        lemma_group_total_step(all, lang, rest);
        let x = all.last();
        if rest.contains(x.group@) {
            let i = choose|i: int| 0 <= i < rest.len() && rest[i] == x.group@;
            assert(groups[i] == x.group@);
            assert(groups[groups.len() - 1] == g);
            assert(g != x.group@);
        }
        if groups.contains(x.group@) && !rest.contains(x.group@) {
            let i = choose|i: int| 0 <= i < groups.len() && groups[i] == x.group@;
            if i < rest.len() {
                assert(rest[i] == x.group@);
            }
        }
        if rest.contains(x.group@) {
            let i = choose|i: int| 0 <= i < rest.len() && rest[i] == x.group@;
            assert(groups[i] == x.group@);
        }
        if g == x.group@ {
            assert(groups[groups.len() - 1] == x.group@);
        }
    }
}

/// The cram sessions of the single groups split the all-groups cram session of a
/// language: a card is in a group's session exactly when it is in the language's
/// session and of that group, and the group sessions of the language's groups (each
/// listed once, as the group menu lists them) hold as many cards together as the
/// language's session.
pub proof fn lemma_group_sessions_partition(
    all: Seq<Card>,
    lang: Seq<char>,
    groups: Seq<Seq<char>>,
    g: Seq<char>,
    c: Card,
)
    requires
        groups.no_duplicates(),
        forall|h: Seq<char>| has_group(all, lang, h) ==> groups.contains(h),
    ensures
        all.filter(of_group(lang, g)).contains(c) <==> (all.filter(of_language(lang)).contains(c)
            && c.group@ == g),
        group_total(all, lang, groups) == all.filter(of_language(lang)).len(),
    decreases all.len(),
{
    broadcast use Seq::lemma_filter_contains_rev;

    if all.filter(of_group(lang, g)).contains(c) {
        let t = choose|t: int|
            0 <= t < all.filter(of_group(lang, g)).len() && all.filter(of_group(lang, g))[t] == c;
        all.lemma_filter_pred(of_group(lang, g), t);
        let i = choose|i: int| 0 <= i < all.len() && all[i] == c;
        all.lemma_filter_contains(of_language(lang), i);
    }
    if all.filter(of_language(lang)).contains(c) && c.group@ == g {
        let t = choose|t: int|
            0 <= t < all.filter(of_language(lang)).len() && all.filter(of_language(lang))[t] == c;
        all.lemma_filter_pred(of_language(lang), t);
        let i = choose|i: int| 0 <= i < all.len() && all[i] == c;
        all.lemma_filter_contains(of_group(lang, g), i);
    }
    if all.len() == 0 {
        lemma_group_total_empty(all, lang, groups);
        reveal(Seq::filter);
    } else {
        let rest = all.drop_last();
        let x = all.last();
        assert forall|h: Seq<char>| has_group(rest, lang, h) implies groups.contains(h) by {
            let i = choose|i: int| 0 <= i < rest.len() && #[trigger] rest[i].language@ == lang && rest[i].group@ == h;
            assert(all[i].language@ == lang);
        }
        lemma_group_sessions_partition(rest, lang, groups, g, c);
        lemma_group_total_step(all, lang, groups);
        if x.language@ == lang {
            assert(all[all.len() - 1].language@ == lang);
            assert(has_group(all, lang, x.group@));
        }
        reveal(Seq::filter);
    }
}

proof fn lemma_group_total_empty(all: Seq<Card>, lang: Seq<char>, groups: Seq<Seq<char>>)
    requires
        all.len() == 0,
    ensures
        group_total(all, lang, groups) == 0,
    decreases groups.len(),
{
    reveal(Seq::filter);
    if groups.len() > 0 {
        lemma_group_total_empty(all, lang, groups.drop_last());
    }
}

} // verus!
