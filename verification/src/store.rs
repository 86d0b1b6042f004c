use vstd::prelude::*;
use crate::files::{language_of, language_of_id, language_views};
use crate::progress::Progress;

verus! {

/// The progress of every card that has been rated, keyed by card identifier.
pub struct ProgressStore {
    entries: Vec<(String, Progress)>,
    model: Ghost<Map<Seq<char>, Progress>>,
}

impl View for ProgressStore {
    type V = Map<Seq<char>, Progress>;

    closed spec fn view(&self) -> Map<Seq<char>, Progress> {
        self.model@
    }
}

/// The map after inserting `entries` one after the other: a later entry for the
/// same identifier wins.
pub open spec fn insert_all(m: Map<Seq<char>, Progress>, entries: Seq<(String, Progress)>) -> Map<
    Seq<char>,
    Progress,
>
    decreases entries.len(),
{
    if entries.len() == 0 {
        m
    } else {
        insert_all(m, entries.drop_last()).insert(entries.last().0@, entries.last().1)
    }
}

impl ProgressStore {
    #[verifier::type_invariant]
    closed spec fn inv(self) -> bool {
        &&& forall|i: int, j: int|
            0 <= i < j < self.entries@.len() ==> #[trigger] self.entries@[i].0@
                != #[trigger] self.entries@[j].0@
        &&& forall|i: int|
            0 <= i < self.entries@.len() ==> self.model@.contains_key(#[trigger] self.entries@[i].0@)
                && self.model@[self.entries@[i].0@] == self.entries@[i].1
        &&& forall|k: Seq<char>|
            #[trigger] self.model@.contains_key(k) ==> exists|i: int|
                0 <= i < self.entries@.len() && #[trigger] self.entries@[i].0@ == k
    }

    /// An empty store.
    pub fn new() -> (s: ProgressStore)
        ensures
            s@ == Map::<Seq<char>, Progress>::empty(),
    {
        ProgressStore { entries: Vec::new(), model: Ghost(Map::empty()) }
    }

    /// The position of `key` among the entries.
    fn find(&self, key: &String) -> (r: Option<usize>)
        ensures
            match r {
                Some(i) => i < self.entries@.len() && self.entries@[i as int].0@ == key@
                    && self@.contains_key(key@) && self@[key@] == self.entries@[i as int].1,
                None => !self@.contains_key(key@),
            },
    {
        proof {
            use_type_invariant(self);
        }
        let mut i: usize = 0;
        while i < self.entries.len()
            invariant
                i <= self.entries@.len(),
                forall|j: int| 0 <= j < i ==> self.entries@[j].0@ != key@,
            decreases self.entries@.len() - i,
        {
            if self.entries[i].0 == *key {
                proof {
                    use_type_invariant(self);
                }
                return Some(i);
            }
            i = i + 1;
        }
        proof {
            use_type_invariant(self);
        }
        None
    }

    /// The progress recorded for the card `id`, if any.
    pub fn get(&self, id: &str) -> (r: Option<&Progress>)
        ensures
            match r {
                Some(p) => self@.contains_key(id@) && *p == self@[id@],
                None => !self@.contains_key(id@),
            },
    {
        let key = id.to_owned();
        match self.find(&key) {
            Some(i) => Some(&self.entries[i].1),
            None => None,
        }
    }

    /// Records `progress` for the card `id`, replacing what was there.
    pub fn update(&mut self, id: String, progress: Progress)
        ensures
            final(self)@ == old(self)@.insert(id@, progress),
    {
        proof {
            use_type_invariant(&*self);
        }
        let found = self.find(&id);
        let mut taken = ProgressStore::new();
        std::mem::swap(self, &mut taken);
        let ProgressStore { mut entries, model } = taken;
        let ghost old_entries = entries@;
        assert(forall|i: int, j: int|
            0 <= i < j < old_entries.len() ==> #[trigger] old_entries[i].0@ != #[trigger] old_entries[j].0@);
        assert(forall|i: int|
            0 <= i < old_entries.len() ==> model@.contains_key(#[trigger] old_entries[i].0@)
                && model@[old_entries[i].0@] == old_entries[i].1);
        let ghost new_model = model@.insert(id@, progress);
        match found {
            Some(i) => {
                entries.set(i, (id, progress));
                assert forall|k: Seq<char>| #[trigger] new_model.contains_key(k) implies exists|j: int|
                    0 <= j < entries@.len() && #[trigger] entries@[j].0@ == k by {
                    if k != entries@[i as int].0@ {
                        let j = choose|j: int| 0 <= j < old_entries.len() && #[trigger] old_entries[j].0@ == k;
                        assert(entries@[j].0@ == k);
                    }
                }
            },
            None => {
                entries.push((id, progress));
                assert forall|k: Seq<char>| #[trigger] new_model.contains_key(k) implies exists|j: int|
                    0 <= j < entries@.len() && #[trigger] entries@[j].0@ == k by {
                    if k != entries@[old_entries.len() as int].0@ {
                        let j = choose|j: int| 0 <= j < old_entries.len() && #[trigger] old_entries[j].0@ == k;
                        assert(entries@[j].0@ == k);
                    }
                }
            },
        }
        proof {
            let s = ProgressStore { entries, model: Ghost(new_model) };
            assert(s.entries@ == entries@);
            assert(s.model@ == new_model);
            assert(forall|i: int, j: int|
                0 <= i < j < s.entries@.len() ==> #[trigger] s.entries@[i].0@ != #[trigger] s.entries@[j].0@);
            assert(forall|i: int|
                0 <= i < s.entries@.len() ==> s.model@.contains_key(#[trigger] s.entries@[i].0@)
                    && s.model@[s.entries@[i].0@] == s.entries@[i].1);
            assert(forall|k: Seq<char>|
                #[trigger] s.model@.contains_key(k) ==> exists|i: int|
                    0 <= i < s.entries@.len() && #[trigger] s.entries@[i].0@ == k);
            assert(s.inv());
        }
        *self = ProgressStore { entries, model: Ghost(new_model) };
    }

    /// Records every entry in order, as a store read from several files is filled:
    /// a later entry for the same card replaces an earlier one.
    pub fn extend(&mut self, entries: Vec<(String, Progress)>)
        ensures
            final(self)@ == insert_all(old(self)@, entries@),
    {
        let ghost start = self@;
        let ghost all = entries@;
        let n = entries.len();
        let mut i: usize = 0;
        while i < n
            invariant
                n == all.len(),
                all == entries@,
                i <= n,
                self@ == insert_all(start, all.take(i as int)),
            decreases n - i,
        {
            proof {
                assert(all.take(i + 1).drop_last() =~= all.take(i as int));
                assert(all.take(i + 1).last() == all[i as int]);
            }
            let id = entries[i].0.clone();
            self.update(id, entries[i].1);
            i = i + 1;
        }
        assert(all.take(n as int) =~= all);
    }
}

/// What a store is saved as: one group per language, each with the entries whose
/// identifiers belong to that language.
pub open spec fn is_language_grouping(
    m: Map<Seq<char>, Progress>,
    groups: Seq<(String, Vec<(String, Progress)>)>,
) -> bool {
    &&& forall|g1: int, g2: int|
        0 <= g1 < g2 < groups.len() ==> #[trigger] groups[g1].0@ != #[trigger] groups[g2].0@
    &&& forall|g: int| 0 <= g < groups.len() ==> #[trigger] groups[g].1@.len() > 0
    &&& forall|g: int, t: int|
        0 <= g < groups.len() && 0 <= t < groups[g].1@.len() ==> {
            let e = #[trigger] groups[g].1@[t];
            &&& m.contains_key(e.0@)
            &&& m[e.0@] == e.1
            &&& language_of(e.0@) == groups[g].0@
        }
    &&& forall|g: int, t1: int, t2: int|
        0 <= g < groups.len() && 0 <= t1 < t2 < groups[g].1@.len() ==> #[trigger] groups[g].1@[t1].0@
            != #[trigger] groups[g].1@[t2].0@
    &&& forall|k: Seq<char>|
        #[trigger] m.contains_key(k) ==> exists|g: int, t: int|
            0 <= g < groups.len() && 0 <= t < groups[g].1@.len() && #[trigger] groups[g].1@[t].0@ == k
}

/// The language of each entry's identifier.
pub open spec fn key_languages(entries: Seq<(String, Progress)>) -> Seq<Seq<char>> {
    entries.map_values(|e: (String, Progress)| language_of(e.0@))
}

/// Entries whose identifiers belong to `lang`.
pub open spec fn in_language(lang: Seq<char>) -> spec_fn((String, Progress)) -> bool {
    |e: (String, Progress)| language_of(e.0@) == lang
}

/// The position of `s` in `v`.
fn position_of(v: &Vec<String>, s: &String) -> (r: Option<usize>)
    ensures
        match r {
            Some(i) => i < v@.len() && v@[i as int]@ == s@,
            None => !language_views(v@).contains(s@),
        },
{
    let mut i: usize = 0;
    while i < v.len()
        invariant
            i <= v@.len(),
            forall|j: int| 0 <= j < i ==> v@[j]@ != s@,
        decreases v@.len() - i,
    {
        if v[i] == *s {
            return Some(i);
        }
        i = i + 1;
    }
    assert forall|j: int| 0 <= j < language_views(v@).len() implies language_views(v@)[j] != s@ by {
        assert(v@[j]@ != s@);
    }
    None
}

impl ProgressStore {
    /// The languages of the stored identifiers, each once, in the order of the entries.
    fn languages(&self) -> (langs: Vec<String>)
        ensures
            language_views(langs@).no_duplicates(),
            forall|x: Seq<char>|
                language_views(langs@).contains(x) <==> key_languages(self.entries@).contains(x),
    {
        let ghost kl = key_languages(self.entries@);
        let mut langs: Vec<String> = Vec::new();
        let mut i: usize = 0;
        while i < self.entries.len()
            invariant
                i <= self.entries@.len(),
                kl == key_languages(self.entries@),
                language_views(langs@).no_duplicates(),
                forall|x: Seq<char>|
                    language_views(langs@).contains(x) <==> kl.take(i as int).contains(x),
            decreases self.entries@.len() - i,
        {
            let l = language_of_id(self.entries[i].0.as_str());
            let ghost before = language_views(langs@);
            proof {
                assert(kl.take(i + 1) =~= kl.take(i as int).push(l@));
            }
            match position_of(&langs, &l) {
                Some(g) => {
                    assert(before[g as int] == l@);
                    assert forall|x: Seq<char>|
                        language_views(langs@).contains(x) <==> kl.take(i + 1).contains(x) by {
                        if x == l@ {
                            assert(kl.take(i + 1)[i as int] == x);
                        }
                        if kl.take(i + 1).contains(x) && x != l@ {
                            let j = choose|j: int| 0 <= j < i + 1 && #[trigger] kl.take(i + 1)[j] == x;
                            assert(kl.take(i as int)[j] == x);
                        }
                    }
                },
                None => {
                    langs.push(l);
                    assert(language_views(langs@) =~= before.push(l@));
                    assert forall|x: Seq<char>|
                        language_views(langs@).contains(x) <==> kl.take(i + 1).contains(x) by {
                        if x == l@ {
                            assert(kl.take(i + 1)[i as int] == x);
                            assert(language_views(langs@)[before.len() as int] == x);
                        } else {
                            if kl.take(i + 1).contains(x) {
                                let j = choose|j: int| 0 <= j < i + 1 && #[trigger] kl.take(i + 1)[j] == x;
                                assert(kl.take(i as int)[j] == x);
                                assert(kl.take(i as int).contains(x));
                                assert(before.contains(x));
                                let h = choose|h: int| 0 <= h < before.len() && #[trigger] before[h] == x;
                                assert(language_views(langs@)[h] == x);
                            }
                            if language_views(langs@).contains(x) {
                                let j = choose|j: int|
                                    0 <= j < language_views(langs@).len() && #[trigger] language_views(langs@)[j] == x;
                                assert(before[j] == x);
                                assert(before.contains(x));
                                assert(kl.take(i as int).contains(x));
                                let h = choose|h: int| 0 <= h < i && #[trigger] kl.take(i as int)[h] == x;
                                assert(kl.take(i + 1)[h] == x);
                            }
                        }
                    }
                },
            }
            i = i + 1;
        }
        assert(kl.take(self.entries@.len() as int) =~= kl);
        langs
    }

    /// The stored entries grouped by the language of their identifiers, as they are
    /// written to one file per language.
    pub fn group_by_language(&self) -> (groups: Vec<(String, Vec<(String, Progress)>)>)
        ensures
            is_language_grouping(self@, groups@),
    {
        proof {
            use_type_invariant(self);
        }
        let langs = self.languages();
        let mut groups: Vec<(String, Vec<(String, Progress)>)> = Vec::new();
        let mut g: usize = 0;
        while g < langs.len()
            invariant
                g <= langs@.len(),
                groups@.len() == g,
                forall|h: int| 0 <= h < g ==> #[trigger] groups@[h].0@ == langs@[h]@,
                forall|h: int|
                    0 <= h < g ==> #[trigger] groups@[h].1@ == self.entries@.filter(
                        in_language(langs@[h]@),
                    ),
            decreases langs@.len() - g,
        {
            let ghost lang = langs@[g as int]@;
            let mut items: Vec<(String, Progress)> = Vec::new();
            let mut i: usize = 0;
            while i < self.entries.len()
                invariant
                    i <= self.entries@.len(),
                    g < langs@.len(),
                    lang == langs@[g as int]@,
                    items@ == self.entries@.take(i as int).filter(in_language(lang)),
                decreases self.entries@.len() - i,
            {
                proof {
                    reveal(Seq::filter);
                    assert(self.entries@.take(i + 1).drop_last() =~= self.entries@.take(i as int));
                }
                let l = language_of_id(self.entries[i].0.as_str());
                if l == langs[g] {
                    items.push((self.entries[i].0.clone(), self.entries[i].1));
                }
                i = i + 1;
            }
            assert(self.entries@.take(self.entries@.len() as int) =~= self.entries@);
            groups.push((langs[g].clone(), items));
            g = g + 1;
        }
        proof {
            self.lemma_grouping(langs@, groups@);
        }
        groups
    }

    proof fn lemma_grouping(&self, langs: Seq<String>, groups: Seq<(String, Vec<(String, Progress)>)>)
        requires
            self.inv(),
            groups.len() == langs.len(),
            language_views(langs).no_duplicates(),
            forall|x: Seq<char>|
                language_views(langs).contains(x) <==> key_languages(self.entries@).contains(x),
            forall|h: int| 0 <= h < groups.len() ==> #[trigger] groups[h].0@ == langs[h]@,
            forall|h: int|
                0 <= h < groups.len() ==> #[trigger] groups[h].1@ == self.entries@.filter(
                    in_language(langs[h]@),
                ),
        ensures
            is_language_grouping(self@, groups),
    {
        let entries = self.entries@;
        let views = language_views(langs);
        assert forall|g1: int, g2: int|
            0 <= g1 < g2 < groups.len() implies #[trigger] groups[g1].0@ != #[trigger] groups[g2].0@ by {
            assert(views[g1] != views[g2]);
        }
        assert forall|g: int| 0 <= g < groups.len() implies #[trigger] groups[g].1@.len() > 0 by {
            assert(views.contains(views[g]));
            let j = choose|j: int| 0 <= j < entries.len() && key_languages(entries)[j] == views[g];
            entries.lemma_filter_contains(in_language(langs[g]@), j);
        }
        assert forall|g: int, t: int|
            0 <= g < groups.len() && 0 <= t < groups[g].1@.len() implies {
                let e = #[trigger] groups[g].1@[t];
                &&& self@.contains_key(e.0@)
                &&& self@[e.0@] == e.1
                &&& language_of(e.0@) == groups[g].0@
            } by {
            entries.lemma_filter_pred(in_language(langs[g]@), t);
            lemma_filter_member(entries, in_language(langs[g]@), t);
        }
        assert forall|g: int, t1: int, t2: int|
            0 <= g < groups.len() && 0 <= t1 < t2 < groups[g].1@.len() implies #[trigger] groups[g].1@[t1].0@
                != #[trigger] groups[g].1@[t2].0@ by {
            lemma_filter_keys_distinct(entries, in_language(langs[g]@), t1, t2);
        }
        assert forall|k: Seq<char>| #[trigger] self@.contains_key(k) implies exists|g: int, t: int|
            0 <= g < groups.len() && 0 <= t < groups[g].1@.len() && #[trigger] groups[g].1@[t].0@ == k by {
            let j = choose|j: int| 0 <= j < entries.len() && #[trigger] entries[j].0@ == k;
            assert(key_languages(entries)[j] == language_of(k));
            assert(key_languages(entries).contains(language_of(k)));
            assert(views.contains(language_of(k)));
            let g = choose|g: int| 0 <= g < views.len() && views[g] == language_of(k);
            assert(views[g] == langs[g]@);
            entries.lemma_filter_contains(in_language(langs[g]@), j);
            let t = choose|t: int|
                0 <= t < entries.filter(in_language(langs[g]@)).len() && entries.filter(
                    in_language(langs[g]@),
                )[t] == entries[j];
            assert(groups[g].1@[t].0@ == k);
        }
    }
}

/// An element of a filtered sequence is an element of the sequence, at a position
/// no earlier than its own.
proof fn lemma_filter_member<A>(s: Seq<A>, pred: spec_fn(A) -> bool, t: int)
    requires
        0 <= t < s.filter(pred).len(),
    ensures
        exists|j: int| t <= j < s.len() && s[j] == s.filter(pred)[t],
    decreases s.len(),
{
    reveal(Seq::filter);
    let rest = s.drop_last();
    if pred(s.last()) && t == s.filter(pred).len() - 1 {
        assert(s[s.len() - 1] == s.filter(pred)[t]);
    } else {
        assert(s.filter(pred)[t] == rest.filter(pred)[t]);
        lemma_filter_member(rest, pred, t);
        let j = choose|j: int| t <= j < rest.len() && rest[j] == rest.filter(pred)[t];
        assert(s[j] == s.filter(pred)[t]);
    }
}

/// Filtering keeps the order: two elements of the filtered sequence come from two
/// distinct positions, in the same order.
proof fn lemma_filter_positions<A>(s: Seq<A>, pred: spec_fn(A) -> bool, t1: int, t2: int)
    requires
        0 <= t1 < t2 < s.filter(pred).len(),
    ensures
        exists|j1: int, j2: int|
            0 <= j1 < j2 < s.len() && s[j1] == s.filter(pred)[t1] && s[j2] == s.filter(pred)[t2],
    decreases s.len(),
{
    reveal(Seq::filter);
    let rest = s.drop_last();
    if pred(s.last()) && t2 == s.filter(pred).len() - 1 {
        assert(s.filter(pred)[t1] == rest.filter(pred)[t1]);
        lemma_filter_member(rest, pred, t1);
        let j1 = choose|j: int| t1 <= j < rest.len() && rest[j] == rest.filter(pred)[t1];
        assert(s[j1] == s.filter(pred)[t1]);
        assert(s[s.len() - 1] == s.filter(pred)[t2]);
    } else {
        assert(s.filter(pred)[t1] == rest.filter(pred)[t1]);
        assert(s.filter(pred)[t2] == rest.filter(pred)[t2]);
        lemma_filter_positions(rest, pred, t1, t2);
        let (j1, j2) = choose|j1: int, j2: int|
            0 <= j1 < j2 < rest.len() && rest[j1] == rest.filter(pred)[t1] && rest[j2]
                == rest.filter(pred)[t2];
        assert(s[j1] == s.filter(pred)[t1] && s[j2] == s.filter(pred)[t2]);
    }
}

proof fn lemma_filter_keys_distinct(
    s: Seq<(String, Progress)>,
    pred: spec_fn((String, Progress)) -> bool,
    t1: int,
    t2: int,
)
    requires
        forall|i: int, j: int| 0 <= i < j < s.len() ==> #[trigger] s[i].0@ != #[trigger] s[j].0@,
        0 <= t1 < t2 < s.filter(pred).len(),
    ensures
        s.filter(pred)[t1].0@ != s.filter(pred)[t2].0@,
{
    lemma_filter_positions(s, pred, t1, t2);
    let (j1, j2) = choose|j1: int, j2: int|
        0 <= j1 < j2 < s.len() && s[j1] == s.filter(pred)[t1] && s[j2] == s.filter(pred)[t2];
    assert(s[j1].0@ != s[j2].0@);
}

} // verus!

verus! {

/// What a read gives back of a write: after `update(id, p)`, `get(id)` returns `p`, and
/// every other card keeps its progress.
pub proof fn lemma_read_after_update(m: Map<Seq<char>, Progress>, id: Seq<char>, p: Progress, other: Seq<char>)
    ensures
        m.insert(id, p).contains_key(id),
        m.insert(id, p)[id] == p,
        other != id ==> (m.insert(id, p).contains_key(other) == m.contains_key(other)),
        other != id && m.contains_key(other) ==> m.insert(id, p)[other] == m[other],
{
}

proof fn lemma_insert_all_dom(m: Map<Seq<char>, Progress>, s: Seq<(String, Progress)>, k: Seq<char>)
    ensures
        insert_all(m, s).contains_key(k) <==> (m.contains_key(k) || exists|j: int|
            0 <= j < s.len() && #[trigger] s[j].0@ == k),
    decreases s.len(),
{
    if s.len() > 0 {
        let rest = s.drop_last();
        lemma_insert_all_dom(m, rest, k);
        if exists|j: int| 0 <= j < rest.len() && #[trigger] rest[j].0@ == k {
            let j = choose|j: int| 0 <= j < rest.len() && #[trigger] rest[j].0@ == k;
            assert(s[j].0@ == k);
        }
        if (exists|j: int| 0 <= j < s.len() && #[trigger] s[j].0@ == k) && s.last().0@ != k {
            let j = choose|j: int| 0 <= j < s.len() && #[trigger] s[j].0@ == k;
            assert(rest[j].0@ == k);
        }
    }
}

proof fn lemma_insert_all_last(m: Map<Seq<char>, Progress>, s: Seq<(String, Progress)>, j: int)
    requires
        0 <= j < s.len(),
        forall|j2: int| j < j2 < s.len() ==> #[trigger] s[j2].0@ != s[j].0@,
    ensures
        insert_all(m, s)[s[j].0@] == s[j].1,
    decreases s.len(),
{
    let rest = s.drop_last();
    if j < s.len() - 1 {
        assert(s[s.len() - 1].0@ != s[j].0@);
        assert(rest[j] == s[j]);
        assert forall|j2: int| j < j2 < rest.len() implies #[trigger] rest[j2].0@ != rest[j].0@ by {
            assert(s[j2].0@ != s[j].0@);
        }
        lemma_insert_all_last(m, rest, j);
    }
}

proof fn lemma_insert_all_absent(m: Map<Seq<char>, Progress>, s: Seq<(String, Progress)>, k: Seq<char>)
    requires
        forall|j: int| 0 <= j < s.len() ==> #[trigger] s[j].0@ != k,
    ensures
        insert_all(m, s)[k] == m[k],
    decreases s.len(),
{
    if s.len() > 0 {
        let rest = s.drop_last();
        assert(s[s.len() - 1].0@ != k);
        assert forall|j: int| 0 <= j < rest.len() implies #[trigger] rest[j].0@ != k by {
            assert(s[j].0@ != k);
        }
        lemma_insert_all_absent(m, rest, k);
    }
}

/// Loading entries one after the other: an identifier is stored when it was stored
/// before or occurs among the entries; its progress is that of its last entry, or the
/// old one when it has no entry.
pub proof fn lemma_later_entry_wins(m: Map<Seq<char>, Progress>, s: Seq<(String, Progress)>, k: Seq<char>)
    ensures
        insert_all(m, s).contains_key(k) <==> (m.contains_key(k) || exists|j: int|
            0 <= j < s.len() && #[trigger] s[j].0@ == k),
        forall|j: int|
            0 <= j < s.len() && #[trigger] s[j].0@ == k && (forall|j2: int|
                j < j2 < s.len() ==> s[j2].0@ != k) ==> insert_all(m, s)[k] == s[j].1,
        (forall|j: int| 0 <= j < s.len() ==> #[trigger] s[j].0@ != k) ==> insert_all(m, s)[k] == m[k],
{
    lemma_insert_all_dom(m, s, k);
    assert forall|j: int|
        0 <= j < s.len() && #[trigger] s[j].0@ == k && (forall|j2: int|
            j < j2 < s.len() ==> s[j2].0@ != k) implies insert_all(m, s)[k] == s[j].1 by {
        assert forall|j2: int| j < j2 < s.len() implies #[trigger] s[j2].0@ != s[j].0@ by {
            assert(s[j2].0@ != k);
        }
        lemma_insert_all_last(m, s, j);
    }
    if forall|j: int| 0 <= j < s.len() ==> #[trigger] s[j].0@ != k {
        lemma_insert_all_absent(m, s, k);
    }
}

/// All entries of the groups, group after group: what loading every saved file reads.
pub open spec fn all_entries(groups: Seq<(String, Vec<(String, Progress)>)>) -> Seq<(String, Progress)>
    decreases groups.len(),
{
    if groups.len() == 0 {
        Seq::empty()
    } else {
        all_entries(groups.drop_last()) + groups.last().1@
    }
}

proof fn lemma_all_entries_index(groups: Seq<(String, Vec<(String, Progress)>)>, j: int)
    requires
        0 <= j < all_entries(groups).len(),
    ensures
        exists|g: int, t: int|
            0 <= g < groups.len() && 0 <= t < groups[g].1@.len() && #[trigger] groups[g].1@[t]
                == all_entries(groups)[j],
    decreases groups.len(),
{
    let rest = groups.drop_last();
    if j < all_entries(rest).len() {
        lemma_all_entries_index(rest, j);
        let (g, t) = choose|g: int, t: int|
            0 <= g < rest.len() && 0 <= t < rest[g].1@.len() && #[trigger] rest[g].1@[t]
                == all_entries(rest)[j];
        assert(groups[g].1@[t] == all_entries(groups)[j]);
    } else {
        let t = j - all_entries(rest).len();
        assert(groups[groups.len() - 1].1@[t] == all_entries(groups)[j]);
    }
}

proof fn lemma_all_entries_contains(groups: Seq<(String, Vec<(String, Progress)>)>, g: int, t: int)
    requires
        0 <= g < groups.len(),
        0 <= t < groups[g].1@.len(),
    ensures
        all_entries(groups).contains(groups[g].1@[t]),
    decreases groups.len(),
{
    let rest = groups.drop_last();
    if g < groups.len() - 1 {
        lemma_all_entries_contains(rest, g, t);
        let j = choose|j: int| 0 <= j < all_entries(rest).len() && all_entries(rest)[j] == rest[g].1@[t];
        assert(all_entries(groups)[j] == groups[g].1@[t]);
    } else {
        let j = all_entries(rest).len() + t;
        assert(all_entries(groups)[j] == groups[g].1@[t]);
    }
}

/// Entries that all agree with `m` load into a part of `m`.
proof fn lemma_insert_consistent(m: Map<Seq<char>, Progress>, s: Seq<(String, Progress)>)
    requires
        forall|j: int|
            0 <= j < s.len() ==> m.contains_key(#[trigger] s[j].0@) && m[s[j].0@] == s[j].1,
    ensures
        forall|k: Seq<char>|
            #[trigger] insert_all(Map::empty(), s).contains_key(k) ==> m.contains_key(k)
                && insert_all(Map::empty(), s)[k] == m[k],
    decreases s.len(),
{
    if s.len() > 0 {
        let rest = s.drop_last();
        assert forall|j: int| 0 <= j < rest.len() implies m.contains_key(#[trigger] rest[j].0@)
            && m[rest[j].0@] == rest[j].1 by {
            assert(rest[j] == s[j]);
        }
        lemma_insert_consistent(m, rest);
        let last = s[s.len() - 1];
        assert(m.contains_key(last.0@) && m[last.0@] == last.1);
        assert forall|k: Seq<char>|
            #[trigger] insert_all(Map::empty(), s).contains_key(k) implies m.contains_key(k)
                && insert_all(Map::empty(), s)[k] == m[k] by {
            assert(insert_all(Map::empty(), s) == insert_all(Map::empty(), rest).insert(last.0@, last.1));
            if k != last.0@ {
                assert(insert_all(Map::empty(), rest).contains_key(k));
            }
        }
    } else {
        assert(insert_all(Map::empty(), s) == Map::<Seq<char>, Progress>::empty());
    }
}

/// Loading one file after another is loading their entries one after the other.
pub proof fn lemma_extend_twice(m: Map<Seq<char>, Progress>, a: Seq<(String, Progress)>, b: Seq<(String, Progress)>)
    ensures
        insert_all(insert_all(m, a), b) == insert_all(m, a + b),
    decreases b.len(),
{
    if b.len() == 0 {
        assert(a + b =~= a);
    } else {
        lemma_extend_twice(m, a, b.drop_last());
        assert((a + b).drop_last() =~= a + b.drop_last());
        assert((a + b).last() == b.last());
    }
}

/// Saving and loading give the store back: loading, into an empty store, the entries
/// of the files that saving writes (one per language group), in any order of the
/// files and of the entries within them, restores every card's progress and nothing
/// else. `loaded` is any arrangement of the saved entries.
pub proof fn lemma_save_then_load(
    m: Map<Seq<char>, Progress>,
    groups: Seq<(String, Vec<(String, Progress)>)>,
    loaded: Seq<(String, Progress)>,
)
    requires
        is_language_grouping(m, groups),
        loaded.to_multiset() == all_entries(groups).to_multiset(),
    ensures
        insert_all(Map::empty(), loaded) == m,
{
    let all = all_entries(groups);
    loaded.to_multiset_ensures();
    all.to_multiset_ensures();
    assert forall|j: int| 0 <= j < loaded.len() implies m.contains_key(#[trigger] loaded[j].0@)
        && m[loaded[j].0@] == loaded[j].1 by {
        assert(loaded.contains(loaded[j]));
        assert(all.to_multiset().count(loaded[j]) > 0);
        let i = choose|i: int| 0 <= i < all.len() && all[i] == loaded[j];
        lemma_all_entries_index(groups, i);
        let (g, t) = choose|g: int, t: int|
            0 <= g < groups.len() && 0 <= t < groups[g].1@.len() && #[trigger] groups[g].1@[t] == all[i];
        assert(groups[g].1@[t] == loaded[j]);
    }
    lemma_insert_consistent(m, loaded);
    let result = insert_all(Map::empty(), loaded);
    assert forall|k: Seq<char>| #[trigger] m.contains_key(k) implies result.contains_key(k) by {
        let (g, t) = choose|g: int, t: int|
            0 <= g < groups.len() && 0 <= t < groups[g].1@.len() && #[trigger] groups[g].1@[t].0@ == k;
        lemma_all_entries_contains(groups, g, t);
        assert(loaded.to_multiset().count(groups[g].1@[t]) > 0);
        let j = choose|j: int| 0 <= j < loaded.len() && loaded[j] == groups[g].1@[t];
        lemma_insert_all_dom(Map::empty(), loaded, k);
        assert(loaded[j].0@ == k);
    }
    assert(result =~= m);
}

} // verus!
