//! The table that maps capture indices to CSS class attributes.

use vstd::prelude::*;
use vstd::string::*;

verus! {

/// The role names that a language is given when none are supplied: the
/// vocabulary of capture names that highlight queries commonly use.
pub const NAMES: [&'static str; 72] = [
    "annotation",
    "attribute",
    "boolean",
    "character",
    "character.special",
    "comment",
    "conditional",
    "constant",
    "constant.builtin",
    "constant.macro",
    "constructor",
    "debug",
    "define",
    "error",
    "exception",
    "field",
    "float",
    "function",
    "function.call",
    "function.builtin",
    "function.macro",
    "include",
    "keyword",
    "keyword.function",
    "keyword.operator",
    "keyword.return",
    "label",
    "method",
    "method.call",
    "namespace",
    "none",
    "number",
    "operator",
    "parameter",
    "parameter.reference",
    "preproc",
    "property",
    "punctuation.delimiter",
    "punctuation.bracket",
    "punctuation.special",
    "repeat",
    "storageclass",
    "string",
    "string.regex",
    "string.escape",
    "string.special",
    "symbol",
    "tag",
    "tag.attribute",
    "tag.delimiter",
    "text",
    "text.strong",
    "text.emphasis",
    "text.underline",
    "text.strike",
    "text.title",
    "text.literal",
    "text.uri",
    "text.math",
    "text.reference",
    "text.environment",
    "text.environment.name",
    "text.note",
    "text.warning",
    "text.danger",
    "todo",
    "type",
    "type.builtin",
    "type.qualifier",
    "type.definition",
    "variable",
    "variable.builtin",
];

/// The class attribute for one role name: the text `class=` followed by the
/// name, verbatim.
pub open spec fn class_attribute(name: Seq<char>) -> Seq<char> {
    "class="@ + name
}

/// The class table for a list of role names: one attribute per name, in order.
pub open spec fn class_table(names: Seq<Seq<char>>) -> Seq<Seq<char>> {
    Seq::new(names.len(), |i: int| class_attribute(names[i]))
}

/// The role names held in a slice of string slices.
pub open spec fn name_texts(names: Seq<&str>) -> Seq<Seq<char>> {
    Seq::new(names.len(), |i: int| names[i]@)
}

/// The texts held in a sequence of owned strings.
pub open spec fn texts(strings: Seq<String>) -> Seq<Seq<char>> {
    Seq::new(strings.len(), |i: int| strings[i]@)
}

/// Builds the class table for `names`: entry `i` is `class=` followed by
/// `names[i]`, with no escaping, trimming or deduplication.
pub fn names_to_classes(names: &[&str]) -> (classes: Vec<String>)
    ensures
        classes@.len() == names@.len(),
        forall|i: int|
            0 <= i < names@.len() ==> (#[trigger] classes@[i])@ == class_attribute(names@[i]@),
        texts(classes@) == class_table(name_texts(names@)),
{
    let mut classes: Vec<String> = Vec::new();
    let mut i: usize = 0;
    while i < names.len()
        invariant
            i <= names@.len(),
            classes@.len() == i,
            forall|k: int| 0 <= k < i ==> (#[trigger] classes@[k])@ == class_attribute(names@[k]@),
        decreases names@.len() - i,
    {
        let mut class = String::new();
        class.append("class=");
        class.append(names[i]);
        classes.push(class);
        i += 1;
    }
    assert(texts(classes@) =~= class_table(name_texts(names@)));
    classes
}

} // verus!
