//! The registry of languages: for each language identifier its configured
//! tokenizer and its class table.

use vstd::prelude::*;
use vstd::string::*;
use vstd::utf8::*;
use tree_sitter_highlight::HighlightConfiguration;
use crate::classes::{class_table, name_texts, names_to_classes, texts, NAMES};
use crate::pipeline::{render_tokenized, rendered};
use crate::pipeline::lemma_fragment_text_unique;
use crate::tokenizer::{configure, configured, tokenize, tokenized};

verus! {

/// The index of the first entry at or after `from` whose key is `lang`.
spec fn find_from(
    entries: Seq<(&str, (HighlightConfiguration, Vec<String>))>,
    lang: Seq<char>,
    from: int,
) -> Option<int>
    decreases entries.len() - from,
{
    if from < 0 || from >= entries.len() {
        None
    } else if entries[from].0@ == lang {
        Some(from)
    } else {
        find_from(entries, lang, from + 1)
    }
}

/// Whether two string slices hold the same text.
fn same_text(left: &str, right: &str) -> (same: bool)
    ensures
        same == (left@ == right@),
{
    let a = left.as_bytes();
    let b = right.as_bytes();
    proof {
        encode_utf8_decode_utf8(left@);
        encode_utf8_decode_utf8(right@);
    }
    if a.len() != b.len() {
        return false;
    }
    let mut index: usize = 0;
    while index < a.len()
        invariant
            a@.len() == b@.len(),
            index <= a@.len(),
            forall|k: int| 0 <= k < index ==> a@[k] == b@[k],
            a@ == encode_utf8(left@),
            b@ == encode_utf8(right@),
        decreases a@.len() - index,
    {
        if a[index] != b[index] {
            return false;
        }
        index += 1;
    }
    assert(a@ =~= b@);
    true
}

/// The languages that can be rendered, each with its tokenizer configuration
/// and its class table, and the choice of whether one more newline separates
/// consecutive line-spans.
pub struct Languages<'a> {
    entries: Vec<(&'a str, (HighlightConfiguration, Vec<String>))>,
    line_separator: bool,
}

impl<'a> View for Languages<'a> {
    type V = Map<Seq<char>, (HighlightConfiguration, Vec<String>)>;

    /// The registry as a map from language identifier to what is stored for it.
    closed spec fn view(&self) -> Map<Seq<char>, (HighlightConfiguration, Vec<String>)> {
        Map::new(
            |lang: Seq<char>| find_from(self.entries@, lang, 0) is Some,
            |lang: Seq<char>| self.entries@[find_from(self.entries@, lang, 0)->0].1,
        )
    }
}

/// What `find_from` finds is an entry with that key, and what it does not
/// find is not there.
proof fn lemma_find_in_range(
    entries: Seq<(&str, (HighlightConfiguration, Vec<String>))>,
    lang: Seq<char>,
    from: int,
)
    requires
        0 <= from,
    ensures
        find_from(entries, lang, from) matches Some(index) ==> from <= index < entries.len()
            && entries[index].0@ == lang,
        find_from(entries, lang, from) is None ==> forall|k: int|
            from <= k < entries.len() ==> (#[trigger] entries[k]).0@ != lang,
    decreases entries.len() - from,
{
    if from < entries.len() && entries[from].0@ != lang {
        lemma_find_in_range(entries, lang, from + 1);
    }
}

/// Entries with the same keys at the same places are searched alike.
proof fn lemma_find_same_keys(
    before: Seq<(&str, (HighlightConfiguration, Vec<String>))>,
    after: Seq<(&str, (HighlightConfiguration, Vec<String>))>,
    lang: Seq<char>,
    from: int,
)
    requires
        before.len() == after.len(),
        forall|k: int| 0 <= k < before.len() ==> (#[trigger] before[k]).0@ == after[k].0@,
    ensures
        find_from(after, lang, from) == find_from(before, lang, from),
    decreases before.len() - from,
{
    if 0 <= from < before.len() {
        assert(before[from].0@ == after[from].0@);
        if before[from].0@ != lang {
            lemma_find_same_keys(before, after, lang, from + 1);
        }
    }
}

/// An entry added at the end is found only for a key that no earlier entry
/// has.
proof fn lemma_find_after_push(
    before: Seq<(&str, (HighlightConfiguration, Vec<String>))>,
    entry: (&str, (HighlightConfiguration, Vec<String>)),
    lang: Seq<char>,
    from: int,
)
    requires
        0 <= from <= before.len(),
    ensures
        find_from(before.push(entry), lang, from) == (if find_from(before, lang, from) is Some {
            find_from(before, lang, from)
        } else if entry.0@ == lang {
            Some(before.len() as int)
        } else {
            None
        }),
    decreases before.len() - from,
{
    let after = before.push(entry);
    if from < before.len() {
        assert(after[from] == before[from]);
        if before[from].0@ != lang {
            lemma_find_after_push(before, entry, lang, from + 1);
        }
    } else {
        assert(after[from] == entry);
        assert(find_from(after, lang, from + 1) is None);
    }
}

impl<'a> Default for Languages<'a> {
    /// A registry without languages, as `new` gives it.
    fn default() -> (languages: Self)
        ensures
            languages@ == Map::<Seq<char>, (HighlightConfiguration, Vec<String>)>::empty(),
            !languages.separates_lines(),
    {
        Languages::new()
    }
}

impl<'a> Languages<'a> {
    /// Whether one more newline separates consecutive line-spans in what
    /// this registry renders.
    pub closed spec fn separates_lines(&self) -> bool {
        self.line_separator
    }

    /// A registry without languages, which renders line-spans without a
    /// separator between them.
    pub fn new() -> (languages: Self)
        ensures
            languages@ == Map::<Seq<char>, (HighlightConfiguration, Vec<String>)>::empty(),
            !languages.separates_lines(),
    {
        let languages = Languages { entries: Vec::new(), line_separator: false };
        assert(languages@ =~= Map::<Seq<char>, (HighlightConfiguration, Vec<String>)>::empty());
        languages
    }

    /// Whether one more newline separates consecutive line-spans.
    pub fn line_separator(&self) -> (on: bool)
        ensures
            on == self.separates_lines(),
    {
        self.line_separator
    }

    /// Chooses whether one more newline separates consecutive line-spans.
    pub fn set_line_separator(&mut self, on: bool)
        ensures
            final(self).separates_lines() == on,
            final(self)@ == old(self)@,
    {
        self.line_separator = on;
    }

    /// Registers `lang` with the default role names. An earlier entry for
    /// the same identifier is replaced.
    pub fn insert(&mut self, lang: &'a str, config: HighlightConfiguration) -> (languages: &mut Self)
        ensures
            languages@.contains_key(lang@),
            languages@[lang@].0 == configured(config, name_texts(NAMES@)),
            texts(languages@[lang@].1@) == class_table(name_texts(NAMES@)),
            languages@.remove(lang@) == old(self)@.remove(lang@),
            languages.separates_lines() == old(self).separates_lines(),
            *final(self) == *final(languages),
    {
        self.insert_with_names(lang, config, &NAMES)
    }

    /// Registers `lang` with its role names: the configuration is configured
    /// with them, the class table is built from them, and both are stored. An
    /// earlier entry for the same identifier is replaced; every other entry
    /// stays as it is.
    pub fn insert_with_names(
        &mut self,
        lang: &'a str,
        config: HighlightConfiguration,
        names: &[&str],
    ) -> (languages: &mut Self)
        ensures
            languages@.contains_key(lang@),
            languages@[lang@].0 == configured(config, name_texts(names@)),
            texts(languages@[lang@].1@) == class_table(name_texts(names@)),
            languages@.remove(lang@) == old(self)@.remove(lang@),
            languages.separates_lines() == old(self).separates_lines(),
            *final(self) == *final(languages),
    {
        let mut ready = config;
        configure(&mut ready, names);
        let classes = names_to_classes(names);
        let entry = (lang, (ready, classes));
        let ghost before = self.entries@;
        let mut index: usize = 0;
        while index < self.entries.len()
            invariant
                self.entries@ == before,
                before == old(self).entries@,
                self.line_separator == old(self).line_separator,
                entry.0@ == lang@,
                entry.1.0 == configured(config, name_texts(names@)),
                texts(entry.1.1@) == class_table(name_texts(names@)),
                index <= before.len(),
                find_from(before, lang@, 0) == find_from(before, lang@, index as int),
            decreases before.len() - index,
        {
            if same_text(self.entries[index].0, lang) {
                self.entries.set(index, entry);
                proof {
                    let after = self.entries@;
                    assert forall|k: int| 0 <= k < before.len() implies (#[trigger] before[k]).0@
                        == after[k].0@ by {}
                    lemma_find_in_range(before, lang@, 0);
                    assert forall|other: Seq<char>|
                        find_from(after, other, 0) == find_from(before, other, 0) by {
                        lemma_find_same_keys(before, after, other, 0);
                    }
                    assert forall|other: Seq<char>|
                        other != lang@ && find_from(before, other, 0) is Some implies after[(
                        #[trigger] find_from(after, other, 0))->0] == before[find_from(
                            before,
                            other,
                            0,
                        )->0] by {
                        lemma_find_in_range(before, other, 0);
                    }
                    assert(self@.remove(lang@) =~= old(self)@.remove(lang@));
                }
                return self;
            }
            index += 1;
        }
        self.entries.push(entry);
        proof {
            let after = self.entries@;
            assert forall|other: Seq<char>|
                find_from(after, other, 0) == (if find_from(before, other, 0) is Some {
                    find_from(before, other, 0)
                } else if lang@ == other {
                    Some(before.len() as int)
                } else {
                    None
                }) by {
                lemma_find_after_push(before, entry, other, 0);
            }
            assert forall|other: Seq<char>|
                find_from(before, other, 0) is Some implies 0 <= (#[trigger] find_from(
                    before,
                    other,
                    0,
                ))->0 < before.len() by {
                lemma_find_in_range(before, other, 0);
            }
            assert(self@.remove(lang@) =~= old(self)@.remove(lang@));
        }
        self
    }

    /// What is stored for `lang`: its tokenizer configuration and its class
    /// table, or nothing if the identifier was never registered.
    pub fn get<'b>(&'a self, lang: &'b str) -> (entry: Option<
        &'a (HighlightConfiguration, Vec<String>),
    >)
        ensures
            match entry {
                Some(found) => self@.contains_key(lang@) && *found == self@[lang@],
                None => !self@.contains_key(lang@),
            },
    {
        let mut index: usize = 0;
        while index < self.entries.len()
            invariant
                index <= self.entries@.len(),
                find_from(self.entries@, lang@, 0) == find_from(self.entries@, lang@, index as int),
            decreases self.entries@.len() - index,
        {
            if same_text(self.entries[index].0, lang) {
                return Some(&self.entries[index].1);
            }
            index += 1;
        }
        None
    }

    /// What `render` gives for `source` in the language `lang`, as bytes:
    /// nothing for an identifier that is not registered or a source that the
    /// tokenizer fails on, and else what the tokenizer's events render to
    /// with the language's class table.
    pub open spec fn rendering(&self, lang: Seq<char>, source: Seq<u8>) -> Option<Seq<u8>> {
        if !self@.contains_key(lang) {
            None
        } else {
            match tokenized(self@[lang].0, source) {
                None => None,
                Some(raw) => rendered(
                    lang,
                    source,
                    raw,
                    texts(self@[lang].1@),
                    self.separates_lines(),
                ),
            }
        }
    }

    /// Whether `html` is what `render` gives for `source` in the language
    /// `lang`: the text of the bytes of the rendering, or nothing where there
    /// is no rendering.
    pub open spec fn renders_to(
        &self,
        lang: Seq<char>,
        source: Seq<u8>,
        html: Option<String>,
    ) -> bool {
        match html {
            Some(text) => self.rendering(lang, source) == Some(encode_utf8(text@)),
            None => self.rendering(lang, source) is None,
        }
    }

    /// Rendering the same source in the same language twice gives the same
    /// text, or nothing both times.
    pub proof fn lemma_render_repeats(
        &self,
        lang: Seq<char>,
        source: Seq<u8>,
        first: Option<String>,
        second: Option<String>,
    )
        requires
            self.renders_to(lang, source, first),
            self.renders_to(lang, source, second),
        ensures
            first is Some <==> second is Some,
            first is Some ==> first->0@ == second->0@,
    {
        if first is Some {
            lemma_fragment_text_unique(first->0@, second->0@);
        }
    }

    /// Renders `source` in the language `lang`: the tokenizer's events for
    /// it are placed, checked and rendered with the language's class table.
    /// The result is `None` for an identifier that was never registered, and
    /// whenever tokenizing or rendering fails.
    pub fn render(&self, lang: &str, source: &[u8]) -> (html: Option<String>)
        ensures
            self.renders_to(lang@, source@, html),
            !self@.contains_key(lang@) ==> html is None,
    {
        match self.get(lang) {
            None => None,
            Some(entry) => match tokenize(&entry.0, source) {
                None => None,
                Some(raw) => render_tokenized(
                    lang,
                    source,
                    raw.as_slice(),
                    entry.1.as_slice(),
                    self.line_separator,
                ),
            },
        }
    }
}

} // verus!
