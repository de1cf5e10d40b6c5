//! Editor localization: the language choice and the translation dictionaries.

use crate::text::{
    law_replace_absent_pattern, law_replace_front_and_continue, matches_at, chars_eq, chars_of, chars_match_at, chars_starts_with, has_prefix, replace_all, replace_chars,
    str_eq, string_from_chars, to_owned_string,
};
use vstd::prelude::*;

verus! {

broadcast use vstd::string::group_string_axioms;

/// The editor languages.
#[derive(Clone, Copy, PartialEq, Eq, Structural, Debug)]
pub enum Language {
    SimplifiedChinese,
    English,
}

impl Language {
    /// The stable language code written to the local configuration.
    pub open spec fn code_text(self) -> Seq<char> {
        match self {
            Language::SimplifiedChinese => "zh-CN"@,
            Language::English => "en-US"@,
        }
    }

    /// Returns the stable language code written to the local configuration.
    pub fn code(self) -> (r: &'static str)
        ensures
            r@ == self.code_text(),
    {
        match self {
            Language::SimplifiedChinese => "zh-CN",
            Language::English => "en-US",
        }
    }

    /// The language of a stored code; unknown codes mean Simplified Chinese.
    pub open spec fn from_code_text(code: Seq<char>) -> Language {
        if code == "en-US"@ {
            Language::English
        } else {
            Language::SimplifiedChinese
        }
    }

    /// Restores a language from its stored code; unknown codes fall back to Simplified Chinese.
    pub fn from_code(code: &str) -> (r: Language)
        ensures
            r == Language::from_code_text(code@),
    {
        if str_eq(code, "en-US") {
            Language::English
        } else {
            Language::SimplifiedChinese
        }
    }
}

/// Views of the entries of a dictionary.
pub open spec fn entry_views(entries: Seq<(String, String)>) -> Seq<(Seq<char>, Seq<char>)> {
    entries.map_values(|e: (String, String)| (e.0@, e.1@))
}

/// The map of a list of entries; a later entry for the same key wins.
pub open spec fn pairs_map(s: Seq<(Seq<char>, Seq<char>)>) -> Map<Seq<char>, Seq<char>>
    decreases s.len(),
{
    if s.len() == 0 {
        Map::empty()
    } else {
        pairs_map(s.drop_last()).insert(s.last().0, s.last().1)
    }
}

proof fn lemma_pairs_map_suffix_free(s: Seq<(Seq<char>, Seq<char>)>, i: int, k: Seq<char>)
    requires
        0 <= i <= s.len(),
        forall|j: int| i <= j < s.len() ==> (#[trigger] s[j]).0 != k,
    ensures
        pairs_map(s).contains_key(k) == pairs_map(s.take(i)).contains_key(k),
        pairs_map(s).contains_key(k) ==> pairs_map(s)[k] == pairs_map(s.take(i))[k],
    decreases s.len() - i,
{
    if i < s.len() {
        assert(s.drop_last().take(i) =~= s.take(i));
        lemma_pairs_map_suffix_free(s.drop_last(), i, k);
        assert(s[s.len() - 1].0 != k);
    } else {
        assert(s.take(i) =~= s);
    }
}

/// A translation dictionary from semantic keys to texts.
pub struct Dictionary {
    entries: Vec<(String, String)>,
}

impl View for Dictionary {
    type V = Map<Seq<char>, Seq<char>>;

    open spec fn view(&self) -> Map<Seq<char>, Seq<char>> {
        pairs_map(self.entry_seq())
    }
}

impl Dictionary {
    /// The entries in insertion order.
    pub closed spec fn entry_seq(&self) -> Seq<(Seq<char>, Seq<char>)> {
        entry_views(self.entries@)
    }

    /// An empty dictionary.
    pub fn new() -> (r: Self)
        ensures
            r@ == Map::<Seq<char>, Seq<char>>::empty(),
            r.entry_seq().len() == 0,
    {
        let r = Dictionary { entries: Vec::new() };
        assert(r.entry_seq() =~= Seq::empty());
        r
    }

    /// Adds or replaces one translation.
    pub fn insert(&mut self, key: String, value: String)
        ensures
            final(self)@ == old(self)@.insert(key@, value@),
            final(self).entry_seq() == old(self).entry_seq().push((key@, value@)),
    {
        let ghost before = self.entry_seq();
        self.entries.push((key, value));
        assert(self.entry_seq() =~= before.push((key@, value@)));
        assert(self.entry_seq().drop_last() =~= before);
    }

    /// Builds a dictionary from entries; a later entry for the same key wins.
    pub fn from_entries(entries: Vec<(String, String)>) -> (r: Self)
        ensures
            r@ == pairs_map(entry_views(entries@)),
            r.entry_seq() == entry_views(entries@),
    {
        Dictionary { entries }
    }

    /// Number of stored entries.
    pub fn len(&self) -> (r: usize)
        ensures
            r == self.entry_seq().len(),
    {
        self.entries.len()
    }

    /// The stored entry at an index.
    pub fn entry(&self, i: usize) -> (r: &(String, String))
        requires
            i < self.entry_seq().len(),
        ensures
            (r.0@, r.1@) == self.entry_seq()[i as int],
    {
        &self.entries[i]
    }

    /// Looks a key up.
    pub fn get(&self, key: &Vec<char>) -> (r: Option<&String>)
        ensures
            match r {
                Some(v) => self@.contains_key(key@) && self@[key@] == v@,
                None => !self@.contains_key(key@),
            },
    {
        let mut i: usize = self.entries.len();
        while i > 0
            invariant
                i <= self.entries@.len(),
                forall|j: int|
                    i <= j < self.entries@.len() ==> (#[trigger] self.entry_seq()[j]).0
                        != key@,
            decreases i,
        {
            let k = chars_of(self.entries[i - 1].0.as_str());
            if chars_eq(&k, key) {
                proof {
                    let s = self.entry_seq();
                    lemma_pairs_map_suffix_free(s, i as int, key@);
                    assert(s.take(i as int).drop_last() =~= s.take(i - 1));
                    assert(s.take(i as int).last() == s[i - 1]);
                }
                return Some(&self.entries[i - 1].1);
            }
            i = i - 1;
        }
        proof {
            lemma_pairs_map_suffix_free(self.entry_seq(), 0, key@);
            assert(self.entry_seq().take(0) =~= Seq::empty());
        }
        None
    }
}

/// The marker the local language configuration must carry.
pub const LOCALIZATION_MAGIC: &'static str = "SLIDE2D_LOCALIZATION_SYSTEM";

/// The language a saved configuration selects: its code's language when the configuration
/// carries the marker, else Simplified Chinese.
pub fn configured_language(magic: &str, code: &str) -> (r: Language)
    ensures
        r == if magic@ == LOCALIZATION_MAGIC@ {
            Language::from_code_text(code@)
        } else {
            Language::SimplifiedChinese
        },
{
    if str_eq(magic, LOCALIZATION_MAGIC) {
        Language::from_code(code)
    } else {
        Language::SimplifiedChinese
    }
}

/// The language of the process together with both dictionaries.
pub struct LocalizationState {
    pub language: Language,
    pub chinese: Dictionary,
    pub english: Dictionary,
    pub revision: u64,
}

/// Creates the localization state: both dictionaries and the remembered language, at
/// revision 1.
pub fn initialize(chinese: Dictionary, english: Dictionary, language: Language) -> (r:
    LocalizationState)
    ensures
        r.language == language,
        r.chinese@ == chinese@,
        r.english@ == english@,
        r.revision == 1,
{
    LocalizationState { language, chinese, english, revision: 1 }
}

/// Returns the current language.
pub fn current_language(state: &LocalizationState) -> (r: Language)
    ensures
        r == state.language,
{
    state.language
}

/// Returns the language revision, which changes whenever the language changes.
pub fn revision(state: &LocalizationState) -> (r: u64)
    ensures
        r == state.revision,
{
    state.revision
}

/// Switches the language; returns whether anything changed (so the choice must be saved).
pub fn set_language(state: &mut LocalizationState, language: Language) -> (changed: bool)
    requires
        old(state).language != language ==> old(state).revision < u64::MAX,
    ensures
        changed == (old(state).language != language),
        final(state).language == language,
        final(state).revision == if changed {
            old(state).revision + 1
        } else {
            old(state).revision as int
        },
        final(state).chinese@ == old(state).chinese@,
        final(state).english@ == old(state).english@,
{
    if state.language == language {
        return false;
    }
    state.language = language;
    state.revision = state.revision + 1;
    true
}

/// The translation of a key: the active dictionary's text, else the Chinese text, else the
/// key itself.
pub open spec fn translate(
    language: Language,
    chinese: Map<Seq<char>, Seq<char>>,
    english: Map<Seq<char>, Seq<char>>,
    key: Seq<char>,
) -> Seq<char> {
    let active = if language == Language::English {
        english
    } else {
        chinese
    };
    if active.contains_key(key) {
        active[key]
    } else if chinese.contains_key(key) {
        chinese[key]
    } else {
        key
    }
}

/// The translation of a key as a character vector.
fn translate_chars(state: &LocalizationState, key: &Vec<char>) -> (r: Vec<char>)
    ensures
        r@ == translate(state.language, state.chinese@, state.english@, key@),
{
    let active = if state.language == Language::English {
        &state.english
    } else {
        &state.chinese
    };
    match active.get(key) {
        Some(v) => chars_of(v.as_str()),
        None => match state.chinese.get(key) {
            Some(v) => chars_of(v.as_str()),
            None => key.clone(),
        },
    }
}

/// Translates a stable semantic key; a missing key falls back to the Chinese text and then
/// to the key itself.
pub fn tr(state: &LocalizationState, key: &str) -> (r: String)
    ensures
        r@ == translate(state.language, state.chinese@, state.english@, key@),
{
    let k = chars_of(key);
    let v = translate_chars(state, &k);
    string_from_chars(&v)
}

/// The `{name}` placeholder of an argument.
pub open spec fn placeholder(name: Seq<char>) -> Seq<char> {
    seq!['{'] + name + seq!['}']
}

/// A text with the placeholders of the arguments replaced one argument after another.
pub open spec fn fill_placeholders(text: Seq<char>, arguments: Seq<(Seq<char>, Seq<char>)>) -> Seq<
    char,
>
    decreases arguments.len(),
{
    if arguments.len() == 0 {
        text
    } else {
        replace_all(
            fill_placeholders(text, arguments.drop_last()),
            placeholder(arguments.last().0),
            arguments.last().1,
        )
    }
}

/// A template without `{` holds no placeholder, so filling it in changes nothing.
pub proof fn law_template_without_placeholders(
    text: Seq<char>,
    arguments: Seq<(Seq<char>, Seq<char>)>,
)
    requires
        forall|i: int| 0 <= i < text.len() ==> text[i] != '{',
    ensures
        fill_placeholders(text, arguments) == text,
    decreases arguments.len(),
{
    if arguments.len() > 0 {
        law_template_without_placeholders(text, arguments.drop_last());
        let p = placeholder(arguments.last().0);
        assert forall|i: int| 0 <= i <= text.len() implies !#[trigger] matches_at(text, p, i) by {
            if matches_at(text, p, i) {
                assert(text.subrange(i, i + p.len())[0] == p[0]);
            }
        }
        law_replace_absent_pattern(text, p, arguments.last().1);
    }
}

/// Filling in one argument puts its value at every place its placeholder stands: a template
/// beginning with the placeholder begins with the value, and the rest is filled in too.
pub proof fn law_argument_fills_every_placeholder(
    name: Seq<char>,
    value: Seq<char>,
    rest: Seq<char>,
)
    ensures
        fill_placeholders(placeholder(name) + rest, seq![(name, value)]) == value + fill_placeholders(
            rest,
            seq![(name, value)],
        ),
{
    let args = seq![(name, value)];
    assert(args.drop_last() =~= Seq::<(Seq<char>, Seq<char>)>::empty());
    assert(args.last() == (name, value));
    let t = placeholder(name) + rest;
    assert(fill_placeholders(t, args.drop_last()) == t);
    assert(fill_placeholders(rest, args.drop_last()) == rest);
    assert(fill_placeholders(t, args) == replace_all(t, placeholder(name), value));
    assert(fill_placeholders(rest, args) == replace_all(rest, placeholder(name), value));
    law_replace_front_and_continue(placeholder(name), rest, value);
}

/// Views of the arguments of a translation.
pub open spec fn argument_views(arguments: Seq<(&str, String)>) -> Seq<(Seq<char>, Seq<char>)> {
    arguments.map_values(|a: (&str, String)| (a.0@, a.1@))
}

/// Translates a key and substitutes `{name}` placeholders with the given values, in order.
pub fn tr_args(state: &LocalizationState, key: &str, arguments: &[(&str, String)]) -> (r: String)
    ensures
        r@ == fill_placeholders(
            translate(state.language, state.chinese@, state.english@, key@),
            argument_views(arguments@),
        ),
{
    let k = chars_of(key);
    let mut text = translate_chars(state, &k);
    let ghost base = text@;
    let mut i: usize = 0;
    while i < arguments.len()
        invariant
            i <= arguments@.len(),
            base == translate(state.language, state.chinese@, state.english@, key@),
            text@ == fill_placeholders(base, argument_views(arguments@).take(i as int)),
        decreases arguments@.len() - i,
    {
        let name = chars_of(arguments[i].0);
        let mut pattern: Vec<char> = Vec::new();
        pattern.push('{');
        let mut j: usize = 0;
        while j < name.len()
            invariant
                j <= name@.len(),
                pattern@ == seq!['{'] + name@.take(j as int),
            decreases name@.len() - j,
        {
            pattern.push(name[j]);
            assert(name@.take(j + 1) =~= name@.take(j as int).push(name@[j as int]));
            j = j + 1;
        }
        pattern.push('}');
        assert(name@.take(name@.len() as int) =~= name@);
        assert(pattern@ =~= placeholder(name@));
        let value = chars_of(arguments[i].1.as_str());
        text = replace_chars(&text, &pattern, &value);
        assert(argument_views(arguments@).take(i + 1).drop_last() =~= argument_views(
            arguments@,
        ).take(i as int));
        i = i + 1;
    }
    assert(argument_views(arguments@).take(arguments@.len() as int) =~= argument_views(
        arguments@,
    ));
    string_from_chars(&text)
}

/// `s` with every leading repetition of `prefix` removed (`str::trim_start_matches`).
pub open spec fn strip_leading(s: Seq<char>, prefix: Seq<char>) -> Seq<char>
    decreases s.len(),
{
    if prefix.len() > 0 && has_prefix(s, prefix) {
        strip_leading(s.skip(prefix.len() as int), prefix)
    } else {
        s
    }
}

/// The key prefix of message replacement entries.
pub open spec fn replace_prefix() -> Seq<char> {
    "replace."@
}

/// The number of bytes a character takes in UTF-8.
pub open spec fn utf8_width(c: char) -> nat {
    if (c as int) < 0x80 {
        1
    } else if (c as int) < 0x800 {
        2
    } else if (c as int) < 0x10000 {
        3
    } else {
        4
    }
}

/// The length of a text in UTF-8 bytes.
pub open spec fn utf8_len(s: Seq<char>) -> nat
    decreases s.len(),
{
    if s.len() == 0 {
        0
    } else {
        utf8_len(s.drop_last()) + utf8_width(s.last())
    }
}

/// The length of a text in UTF-8 bytes.
fn utf8_length(s: &Vec<char>) -> (r: u128)
    ensures
        r == utf8_len(s@),
{
    let mut total: u128 = 0;
    let mut i: usize = 0;
    while i < s.len()
        invariant
            i <= s@.len(),
            total == utf8_len(s@.take(i as int)),
            total <= 4 * i,
        decreases s@.len() - i,
    {
        assert(s@.take(i + 1).drop_last() =~= s@.take(i as int));
        let c = s[i];
        let w: u128 = if c <= '\x7f' {
            1
        } else if c <= '\u{7ff}' {
            2
        } else if c <= '\u{ffff}' {
            3
        } else {
            4
        };
        total = total + w;
        i = i + 1;
    }
    assert(s@.take(i as int) =~= s@);
    total
}

/// Inserts an entry behind every entry whose key is at least as long in UTF-8 bytes (a
/// stable insertion).
pub open spec fn insert_by_length(
    sorted: Seq<(Seq<char>, Seq<char>)>,
    e: (Seq<char>, Seq<char>),
) -> Seq<(Seq<char>, Seq<char>)>
    decreases sorted.len(),
{
    if sorted.len() == 0 {
        seq![e]
    } else if utf8_len(sorted.last().0) >= utf8_len(e.0) {
        sorted.push(e)
    } else {
        insert_by_length(sorted.drop_last(), e).push(sorted.last())
    }
}

/// A stable sort by descending key length in UTF-8 bytes.
pub open spec fn sort_by_length(s: Seq<(Seq<char>, Seq<char>)>) -> Seq<(Seq<char>, Seq<char>)>
    decreases s.len(),
{
    if s.len() == 0 {
        s
    } else {
        insert_by_length(sort_by_length(s.drop_last()), s.last())
    }
}

/// The replacement entries of a dictionary (keys starting with `replace.`), in entry order.
pub open spec fn replacement_entries(s: Seq<(Seq<char>, Seq<char>)>) -> Seq<
    (Seq<char>, Seq<char>),
> {
    s.filter(|e: (Seq<char>, Seq<char>)| has_prefix(e.0, replace_prefix()))
}

/// Whether a list of entries is ordered by descending key length in UTF-8 bytes.
pub open spec fn longest_first(s: Seq<(Seq<char>, Seq<char>)>) -> bool {
    forall|i: int, j: int| 0 <= i < j < s.len() ==> utf8_len(#[trigger] s[i].0) >= utf8_len(#[trigger] s[j].0)
}

proof fn lemma_insert_by_length(sorted: Seq<(Seq<char>, Seq<char>)>, e: (Seq<char>, Seq<char>))
    requires
        longest_first(sorted),
    ensures
        longest_first(insert_by_length(sorted, e)),
        insert_by_length(sorted, e).to_multiset() == sorted.to_multiset().insert(e),
    decreases sorted.len(),
{
    broadcast use vstd::seq_lib::group_to_multiset_ensures;
    if sorted.len() == 0 {
        assert(seq![e] =~= Seq::<(Seq<char>, Seq<char>)>::empty().push(e));
        assert(Seq::<(Seq<char>, Seq<char>)>::empty().to_multiset() =~= vstd::multiset::Multiset::empty());
    } else if utf8_len(sorted.last().0) >= utf8_len(e.0) {
    } else {
        let init = sorted.drop_last();
        assert(longest_first(init));
        lemma_insert_by_length(init, e);
        let mid = insert_by_length(init, e);
        let r = mid.push(sorted.last());
        assert(sorted =~= init.push(sorted.last()));
        assert forall|i: int, j: int| 0 <= i < j < r.len() implies utf8_len(#[trigger] r[i].0) >= utf8_len(
            #[trigger] r[j].0,
        ) by {
            if j == r.len() - 1 {
                assert(mid.to_multiset().count(r[i]) > 0);
                assert(mid.contains(r[i]));
                if r[i] == e {
                } else {
                    assert(init.to_multiset().count(r[i]) > 0);
                    assert(init.contains(r[i]));
                    let k = choose|k: int| 0 <= k < init.len() && init[k] == r[i];
                    assert(sorted[k] == r[i]);
                    assert(sorted[sorted.len() - 1] == r[j]);
                }
            } else {
                assert(r[i] == mid[i] && r[j] == mid[j]);
            }
        }
    }
}

/// Sorting by key length keeps every entry and orders them longest first.
pub proof fn law_sort_by_length(s: Seq<(Seq<char>, Seq<char>)>)
    ensures
        longest_first(sort_by_length(s)),
        sort_by_length(s).to_multiset() == s.to_multiset(),
    decreases s.len(),
{
    broadcast use vstd::seq_lib::group_to_multiset_ensures;
    if s.len() == 0 {
    } else {
        law_sort_by_length(s.drop_last());
        lemma_insert_by_length(sort_by_length(s.drop_last()), s.last());
        assert(s =~= s.drop_last().push(s.last()));
    }
}

/// Whether the entry at `i` is the last one for its key: the one the dictionary keeps.
pub open spec fn is_latest(s: Seq<(Seq<char>, Seq<char>)>, i: int) -> bool {
    forall|j: int| i < j < s.len() ==> (#[trigger] s[j]).0 != s[i].0
}

/// The entries among the first `n` that no later entry replaces, in entry order.
pub open spec fn latest_upto(s: Seq<(Seq<char>, Seq<char>)>, n: int) -> Seq<
    (Seq<char>, Seq<char>),
>
    decreases n,
{
    if n <= 0 {
        Seq::empty()
    } else if is_latest(s, n - 1) {
        latest_upto(s, n - 1).push(s[n - 1])
    } else {
        latest_upto(s, n - 1)
    }
}

/// The entries a dictionary keeps: one per key, the last given, in entry order.
pub open spec fn latest_entries(s: Seq<(Seq<char>, Seq<char>)>) -> Seq<(Seq<char>, Seq<char>)> {
    latest_upto(s, s.len() as int)
}

/// A message with the replacements applied in order.
pub open spec fn apply_replacements(message: Seq<char>, r: Seq<(Seq<char>, Seq<char>)>) -> Seq<
    char,
>
    decreases r.len(),
{
    if r.len() == 0 {
        message
    } else {
        replace_all(
            apply_replacements(message, r.drop_last()),
            strip_leading(r.last().0, replace_prefix()),
            r.last().1,
        )
    }
}

/// Stable insertion of one entry into a list sorted by descending key length.
fn insert_sorted(sorted: &mut Vec<(Vec<char>, Vec<char>)>, e: (Vec<char>, Vec<char>))
    ensures
        final(sorted)@.map_values(|p: (Vec<char>, Vec<char>)| (p.0@, p.1@)) == insert_by_length(
            old(sorted)@.map_values(|p: (Vec<char>, Vec<char>)| (p.0@, p.1@)),
            (e.0@, e.1@),
        ),
    decreases old(sorted)@.len(),
{
    let ghost before = sorted@.map_values(|p: (Vec<char>, Vec<char>)| (p.0@, p.1@));
    let n = sorted.len();
    if n == 0 {
        sorted.push(e);
        assert(sorted@.map_values(|p: (Vec<char>, Vec<char>)| (p.0@, p.1@)) =~= seq![
            (e.0@, e.1@),
        ]);
        return ;
    }
    if utf8_length(&sorted[n - 1].0) >= utf8_length(&e.0) {
        sorted.push(e);
        assert(sorted@.map_values(|p: (Vec<char>, Vec<char>)| (p.0@, p.1@)) =~= before.push(
            (e.0@, e.1@),
        ));
        return ;
    }
    let last = sorted.pop().unwrap();
    assert(sorted@.map_values(|p: (Vec<char>, Vec<char>)| (p.0@, p.1@)) =~= before.drop_last());
    insert_sorted(sorted, e);
    let ghost mid = sorted@.map_values(|p: (Vec<char>, Vec<char>)| (p.0@, p.1@));
    sorted.push(last);
    assert(sorted@.map_values(|p: (Vec<char>, Vec<char>)| (p.0@, p.1@)) =~= mid.push(
        (last.0@, last.1@),
    ));
}

/// Removes every leading repetition of `prefix`.
fn strip_leading_chars(s: &Vec<char>, prefix: &Vec<char>) -> (r: Vec<char>)
    ensures
        r@ == strip_leading(s@, prefix@),
{
    let mut start: usize = 0;
    if prefix.len() == 0 {
        return s.clone();
    }
    assert(s@.skip(0) =~= s@);
    while start <= s.len() && chars_match_at(s, prefix, start)
        invariant
            start <= s@.len(),
            prefix@.len() > 0,
            strip_leading(s@.skip(start as int), prefix@) == strip_leading(s@, prefix@),
        decreases s@.len() - start,
    {
        let ghost rest = s@.skip(start as int);
        assert(rest.take(prefix@.len() as int) =~= s@.subrange(
            start as int,
            start + prefix@.len(),
        ));
        assert(rest.skip(prefix@.len() as int) =~= s@.skip(start + prefix@.len()));
        start = start + prefix.len();
    }
    let ghost rest = s@.skip(start as int);
    proof {
        if has_prefix(rest, prefix@) {
            assert(rest.take(prefix@.len() as int) =~= s@.subrange(
                start as int,
                start + prefix@.len(),
            ));
        }
    }
    let mut r: Vec<char> = Vec::new();
    let mut i: usize = start;
    while i < s.len()
        invariant
            start <= i <= s@.len(),
            r@ == s@.subrange(start as int, i as int),
        decreases s@.len() - i,
    {
        r.push(s[i]);
        i = i + 1;
    }
    assert(r@ =~= rest);
    r
}

/// Translates a message that lower layers already formatted, keeping paths, names and
/// details: in English the `replace.` entries of the English dictionary are applied, longest
/// key first; in Chinese the message is returned unchanged.
pub fn localize_message(state: &LocalizationState, message: &str) -> (r: String)
    ensures
        state.language != Language::English ==> r@ == message@,
        state.language == Language::English ==> r@ == apply_replacements(
            message@,
            sort_by_length(replacement_entries(latest_entries(state.english.entry_seq()))),
        ),
{
    if state.language != Language::English {
        return to_owned_string(message);
    }
    let prefix = chars_of("replace.");
    proof {
        reveal_strlit("replace.");
    }
    let ghost all = state.english.entry_seq();
    let mut sorted: Vec<(Vec<char>, Vec<char>)> = Vec::new();
    let mut i: usize = 0;
    while i < state.english.len()
        invariant
            i <= all.len(),
            all == state.english.entry_seq(),
            prefix@ == replace_prefix(),
            sorted@.map_values(|p: (Vec<char>, Vec<char>)| (p.0@, p.1@)) == sort_by_length(
                replacement_entries(latest_upto(all, i as int)),
            ),
        decreases all.len() - i,
    {
        let entry = state.english.entry(i);
        let key = chars_of(entry.0.as_str());
        let value = chars_of(entry.1.as_str());
        let ghost e = all[i as int];
        let mut replaced = false;
        let mut j: usize = i + 1;
        while j < state.english.len()
            invariant
                i < j <= all.len(),
                all == state.english.entry_seq(),
                key@ == all[i as int].0,
                replaced == exists|k: int| i < k < j && (#[trigger] all[k]).0 == all[i as int].0,
            decreases all.len() - j,
        {
            let other = chars_of(state.english.entry(j).0.as_str());
            if chars_eq(&other, &key) {
                replaced = true;
            }
            j = j + 1;
        }
        let ghost prev = replacement_entries(latest_upto(all, i as int));
        proof {
            reveal(Seq::filter);
        }
        if !replaced && chars_starts_with(&key, &prefix) {
            insert_sorted(&mut sorted, (key, value));
            proof {
                assert(is_latest(all, i as int));
                assert(latest_upto(all, i + 1) == latest_upto(all, i as int).push(e));
                assert(latest_upto(all, i + 1).drop_last() =~= latest_upto(all, i as int));
                assert(replacement_entries(latest_upto(all, i + 1)) == prev.push(e));
                assert(prev.push(e).drop_last() =~= prev);
            }
        } else {
            proof {
                if is_latest(all, i as int) {
                    assert(latest_upto(all, i + 1).drop_last() =~= latest_upto(all, i as int));
                    assert(replacement_entries(latest_upto(all, i + 1)) == prev);
                } else {
                    assert(latest_upto(all, i + 1) == latest_upto(all, i as int));
                }
            }
        }
        i = i + 1;
    }
    let mut text = chars_of(message);
    let mut j: usize = 0;
    let ghost order = sorted@.map_values(|p: (Vec<char>, Vec<char>)| (p.0@, p.1@));
    while j < sorted.len()
        invariant
            j <= sorted@.len(),
            prefix@ == replace_prefix(),
            order == sorted@.map_values(|p: (Vec<char>, Vec<char>)| (p.0@, p.1@)),
            text@ == apply_replacements(message@, order.take(j as int)),
        decreases sorted@.len() - j,
    {
        let source = strip_leading_chars(&sorted[j].0, &prefix);
        text = replace_chars(&text, &source, &sorted[j].1);
        assert(order.take(j + 1).drop_last() =~= order.take(j as int));
        j = j + 1;
    }
    assert(order.take(order.len() as int) =~= order);
    string_from_chars(&text)
}

/// A language read back from its stored code is the language that was stored.
pub proof fn law_language_code_round_trip(language: Language)
    ensures
        Language::from_code_text(language.code_text()) == language,
{
    reveal_strlit("zh-CN");
    reveal_strlit("en-US");
    assert("zh-CN"@[0] != "en-US"@[0]);
}

/// A key some entry holds is a key of the dictionary's map.
proof fn lemma_pairs_map_has_key(s: Seq<(Seq<char>, Seq<char>)>, i: int)
    requires
        0 <= i < s.len(),
    ensures
        pairs_map(s).contains_key(s[i].0),
    decreases s.len(),
{
    if i < s.len() - 1 {
        lemma_pairs_map_has_key(s.drop_last(), i);
    }
}

/// Whether an entry is the last one for its key at some index below `n`.
spec fn latest_below(s: Seq<(Seq<char>, Seq<char>)>, n: int, e: (Seq<char>, Seq<char>)) -> bool {
    exists|i: int| 0 <= i < n && is_latest(s, i) && s[i] == e
}

/// Every entry kept among the first `n` is the last entry for its key at an index below
/// `n`; the kept keys are distinct; every last entry below `n` is kept.
proof fn lemma_latest_upto(s: Seq<(Seq<char>, Seq<char>)>, n: int)
    requires
        0 <= n <= s.len(),
    ensures
        forall|t: int|
            0 <= t < latest_upto(s, n).len() ==> latest_below(s, n, #[trigger] latest_upto(s, n)[t]),
        forall|t: int, u: int|
            0 <= t < u < latest_upto(s, n).len() ==> (#[trigger] latest_upto(s, n)[t]).0
                != (#[trigger] latest_upto(s, n)[u]).0,
        forall|i: int|
            0 <= i < n && is_latest(s, i) ==> latest_upto(s, n).contains(#[trigger] s[i]),
    decreases n,
{
    if n > 0 {
        lemma_latest_upto(s, n - 1);
        let before = latest_upto(s, n - 1);
        let now = latest_upto(s, n);
        assert forall|t: int| 0 <= t < before.len() implies latest_below(
            s,
            n,
            #[trigger] before[t],
        ) by {
            assert(latest_below(s, n - 1, before[t]));
            let i = choose|i: int| 0 <= i < n - 1 && is_latest(s, i) && s[i] == before[t];
            assert(0 <= i < n && is_latest(s, i) && s[i] == before[t]);
        }
        if is_latest(s, n - 1) {
            assert(now == before.push(s[n - 1]));
            assert forall|t: int| 0 <= t < now.len() implies latest_below(s, n, #[trigger] now[t]) by {
                if t < before.len() {
                    assert(now[t] == before[t]);
                } else {
                    assert(now[t] == s[n - 1]);
                    assert(0 <= n - 1 < n && is_latest(s, n - 1) && s[n - 1] == now[t]);
                }
            }
            assert forall|t: int, u: int|
                0 <= t < u < now.len() implies (#[trigger] now[t]).0 != (#[trigger] now[u]).0 by {
                assert(now[t] == before[t]);
                if u == before.len() {
                    assert(latest_below(s, n - 1, before[t]));
                    let i = choose|i: int| 0 <= i < n - 1 && is_latest(s, i) && s[i] == before[t];
                    assert(s[n - 1].0 != s[i].0);
                } else {
                    assert(now[u] == before[u]);
                }
            }
            assert forall|i: int| 0 <= i < n && is_latest(s, i) implies now.contains(
                #[trigger] s[i],
            ) by {
                if i < n - 1 {
                    assert(before.contains(s[i]));
                    let t = choose|t: int| 0 <= t < before.len() && before[t] == s[i];
                    assert(now[t] == s[i]);
                } else {
                    assert(now[now.len() - 1] == s[i]);
                }
            }
        } else {
            assert(now == before);
        }
    }
}

/// The replacements a message is localized with are the dictionary's own entries: each
/// kept entry is what the dictionary maps its key to, no key is kept twice, and every key
/// of the dictionary is kept.
pub proof fn law_kept_entries_are_the_dictionary(s: Seq<(Seq<char>, Seq<char>)>)
    ensures
        forall|t: int|
            0 <= t < latest_entries(s).len() ==> pairs_map(s).contains_key(
                (#[trigger] latest_entries(s)[t]).0,
            ) && pairs_map(s)[latest_entries(s)[t].0] == latest_entries(s)[t].1,
        forall|t: int, u: int|
            0 <= t < u < latest_entries(s).len() ==> (#[trigger] latest_entries(s)[t]).0
                != (#[trigger] latest_entries(s)[u]).0,
        forall|k: Seq<char>|
            #[trigger] pairs_map(s).contains_key(k) ==> exists|t: int|
                0 <= t < latest_entries(s).len() && (#[trigger] latest_entries(s)[t]).0 == k,
{
    let n = s.len() as int;
    lemma_latest_upto(s, n);
    let l = latest_entries(s);
    assert forall|t: int| 0 <= t < l.len() implies pairs_map(s).contains_key(
        (#[trigger] l[t]).0,
    ) && pairs_map(s)[l[t].0] == l[t].1 by {
        let i = choose|i: int| 0 <= i < n && is_latest(s, i) && l[t] == s[i];
        lemma_pairs_map_suffix_free(s, i + 1, s[i].0);
        assert(s.take(i + 1).drop_last() =~= s.take(i));
        assert(s.take(i + 1).last() == s[i]);
    }
    assert forall|k: Seq<char>| #[trigger] pairs_map(s).contains_key(k) implies exists|t: int|
        0 <= t < l.len() && (#[trigger] l[t]).0 == k by {
        if forall|j: int| 0 <= j < s.len() ==> (#[trigger] s[j]).0 != k {
            lemma_pairs_map_suffix_free(s, 0, k);
            assert(s.take(0) =~= Seq::<(Seq<char>, Seq<char>)>::empty());
        } else {
            let j = choose|j: int| 0 <= j < s.len() && (#[trigger] s[j]).0 == k;
            let i = lemma_last_with_key(s, j, k);
            assert(l.contains(s[i]));
            let t = choose|t: int| 0 <= t < l.len() && l[t] == s[i];
            assert(l[t].0 == k);
        }
    }
}

/// From an entry with a key, the last entry with that key.
proof fn lemma_last_with_key(s: Seq<(Seq<char>, Seq<char>)>, j: int, k: Seq<char>) -> (i: int)
    requires
        0 <= j < s.len(),
        s[j].0 == k,
    ensures
        0 <= i < s.len(),
        s[i].0 == k,
        is_latest(s, i),
    decreases s.len() - j,
{
    if exists|m: int| j < m < s.len() && (#[trigger] s[m]).0 == k {
        let m = choose|m: int| j < m < s.len() && (#[trigger] s[m]).0 == k;
        lemma_last_with_key(s, m, k)
    } else {
        j
    }
}

/// Translation looks a key up in the active language, then in Chinese, then shows the key
/// itself.
pub proof fn law_translation_fallback(
    language: Language,
    chinese: Map<Seq<char>, Seq<char>>,
    english: Map<Seq<char>, Seq<char>>,
    key: Seq<char>,
)
    ensures
        language == Language::English && english.contains_key(key) ==> translate(
            language,
            chinese,
            english,
            key,
        ) == english[key],
        (language == Language::SimplifiedChinese || !english.contains_key(key))
            && chinese.contains_key(key) ==> translate(language, chinese, english, key)
            == chinese[key],
        !english.contains_key(key) && !chinese.contains_key(key) ==> translate(
            language,
            chinese,
            english,
            key,
        ) == key,
{
}

/// Choosing the current language again changes nothing; the revision moves only on a
/// change, by one.
pub proof fn law_revision_moves_on_change(before: Language, after: Language, revision: u64)
    ensures
        (if before != after {
            revision + 1
        } else {
            revision as int
        }) == revision <==> before == after,
{
}

} // verus!
