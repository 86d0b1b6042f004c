use vstd::prelude::*;

verus! {

/// The language part of a card identifier: everything before the first `/`
/// (the whole identifier when it holds none).
pub open spec fn language_of(id: Seq<char>) -> Seq<char>
    decreases id.len(),
{
    if id.len() == 0 {
        id
    } else if id[0] == '/' {
        Seq::empty()
    } else {
        seq![id[0]] + language_of(id.drop_first())
    }
}

proof fn lemma_language_of_prefix(id: Seq<char>, i: int)
    requires
        0 <= i <= id.len(),
        forall|j: int| 0 <= j < i ==> id[j] != '/',
        i == id.len() || id[i] == '/',
    ensures
        language_of(id) == id.take(i),
    decreases i,
{
    if i == 0 {
        assert(id.take(0) =~= Seq::<char>::empty());
        if id.len() == 0 {
            assert(id =~= Seq::<char>::empty());
        }
    } else {
        let rest = id.drop_first();
        assert forall|j: int| 0 <= j < i - 1 implies rest[j] != '/' by {
            assert(rest[j] == id[j + 1]);
        }
        lemma_language_of_prefix(rest, i - 1);
        assert(id.take(i) =~= seq![id[0]] + rest.take(i - 1));
    }
}

/// The language a card identifier belongs to, as used to pick its progress file.
pub fn language_of_id(id: &str) -> (lang: String)
    ensures
        lang@ == language_of(id@),
{
    let n = id.unicode_len();
    let mut i: usize = 0;
    while i < n && id.get_char(i) != '/'
        invariant
            n == id@.len(),
            i <= n,
            forall|j: int| 0 <= j < i ==> id@[j] != '/',
        decreases n - i,
    {
        i = i + 1;
    }
    proof {
        lemma_language_of_prefix(id@, i as int);
    }
    id.substring_char(0, i).to_owned()
}

/// The name of the file that holds the progress of one language.
pub open spec fn file_name_of(lang: Seq<char>) -> Seq<char> {
    "progress_"@ + lang + ".json"@
}

/// The language whose progress a file of this name holds, if it is a progress file:
/// its name starts with `progress_` and ends with `.json`.
pub open spec fn file_language(name: Seq<char>) -> Option<Seq<char>> {
    if "progress_"@.is_prefix_of(name) && ".json"@.is_suffix_of(name) {
        Some(name.subrange("progress_"@.len() as int, name.len() - ".json"@.len()))
    } else {
        None
    }
}

/// `progress_<lang>.json`
pub fn progress_file_name(lang: &str) -> (name: String)
    ensures
        name@ == file_name_of(lang@),
{
    let mut name = String::from_str("progress_");
    name.append(lang);
    name.append(".json");
    name
}

/// The language of a progress file, or `None` for any other file name.
pub fn progress_file_language(name: &str) -> (lang: Option<String>)
    ensures
        match lang {
            Some(l) => file_language(name@) == Some(l@),
            None => file_language(name@) is None,
        },
{
    proof {
        reveal_strlit("progress_");
        reveal_strlit(".json");
    }
    let n = name.unicode_len();
    if n < 14 {
        proof {
            if "progress_"@.is_prefix_of(name@) && ".json"@.is_suffix_of(name@) {
                assert(name@[8] == "progress_"@[8]);
                assert(name@[8] == ".json"@[8 - (n - 5)]);
            }
        }
        return None;
    }
    let head = String::from_str(name.substring_char(0, 9));
    let tail = String::from_str(name.substring_char(n - 5, n));
    if head == String::from_str("progress_") && tail == String::from_str(".json") {
        Some(String::from_str(name.substring_char(9, n - 5)))
    } else {
        None
    }
}

/// The languages as plain character sequences.
pub open spec fn language_views(languages: Seq<String>) -> Seq<Seq<char>> {
    languages.map_values(|l: String| l@)
}

/// A progress file that belongs to none of the given languages: saving removes it.
pub fn is_stale_progress_file(name: &str, languages: &Vec<String>) -> (stale: bool)
    ensures
        stale == (file_language(name@) matches Some(l) && !language_views(languages@).contains(l)),
{
    match progress_file_language(name) {
        None => false,
        Some(l) => {
            let mut i: usize = 0;
            while i < languages.len()
                invariant
                    i <= languages@.len(),
                    file_language(name@) == Some(l@),
                    forall|j: int| 0 <= j < i ==> languages@[j]@ != l@,
                decreases languages@.len() - i,
            {
                if languages[i] == l {
                    assert(language_views(languages@)[i as int] == l@);
                    return false;
                }
                i = i + 1;
            }
            assert(!language_views(languages@).contains(l@));
            true
        },
    }
}

/// Every file that saving writes is found again as a progress file of its language
/// when the store is loaded.
pub proof fn lemma_file_name_round_trip(lang: Seq<char>)
    ensures
        file_language(file_name_of(lang)) == Some(lang),
{
    reveal_strlit("progress_");
    reveal_strlit(".json");
    let name = file_name_of(lang);
    assert("progress_"@ =~= name.subrange(0, 9));
    assert(".json"@ =~= name.subrange(name.len() - 5, name.len() as int));
    assert(name.subrange(9, name.len() - 5) =~= lang);
}

/// The language part of an identifier is its longest beginning without a `/`: it is a
/// prefix of the identifier, holds no `/`, and is followed by a `/` or by nothing.
pub proof fn lemma_language_of_is_first_part(id: Seq<char>)
    ensures
        language_of(id).is_prefix_of(id),
        forall|j: int| 0 <= j < language_of(id).len() ==> language_of(id)[j] != '/',
        language_of(id).len() == id.len() || id[language_of(id).len() as int] == '/',
    decreases id.len(),
{
    if id.len() > 0 && id[0] != '/' {
        let rest = id.drop_first();
        lemma_language_of_is_first_part(rest);
        let l = language_of(id);
        assert(l == seq![id[0]] + language_of(rest));
        assert forall|j: int| 0 <= j < l.len() implies l[j] != '/' by {
            if j > 0 {
                assert(l[j] == language_of(rest)[j - 1]);
            }
        }
        assert(l =~= id.subrange(0, l.len() as int));
        if l.len() < id.len() {
            assert(id[l.len() as int] == rest[language_of(rest).len() as int]);
        }
    } else if id.len() > 0 {
        assert(language_of(id) =~= id.subrange(0, 0));
    } else {
        assert(language_of(id) =~= id.subrange(0, 0));
    }
}

/// A file name is a progress file exactly when it is `progress_<lang>.json`, and then
/// its language is `lang`.
pub proof fn lemma_progress_file_names(name: Seq<char>, lang: Seq<char>)
    ensures
        file_language(name) == Some(lang) <==> name == "progress_"@ + lang + ".json"@,
{
    reveal_strlit("progress_");
    reveal_strlit(".json");
    if name == "progress_"@ + lang + ".json"@ {
        lemma_file_name_round_trip(lang);
    }
    if file_language(name) == Some(lang) {
        if name.len() < 14 {
            assert(name[8] == "progress_"@[8]);
            assert(name[8] == ".json"@[8 - (name.len() - 5)]);
        }
        assert(name =~= "progress_"@ + lang + ".json"@);
    }
}

/// The language part of `language/rest` is `language` when it holds no `/`.
pub proof fn lemma_language_of_slash(language: Seq<char>, rest: Seq<char>)
    requires
        forall|i: int| 0 <= i < language.len() ==> language[i] != '/',
    ensures
        language_of(language + seq!['/'] + rest) == language,
{
    let id = language + seq!['/'] + rest;
    assert forall|j: int| 0 <= j < language.len() implies id[j] != '/' by {
        assert(id[j] == language[j]);
    }
    assert(id[language.len() as int] == '/');
    lemma_language_of_prefix(id, language.len() as int);
    assert(id.take(language.len() as int) =~= language);
}

} // verus!
