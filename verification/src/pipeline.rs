//! From the tokenizer's events to the finished text: the events are placed at
//! byte offsets, rendered, and the bytes read as UTF-8.

use vstd::prelude::*;
use vstd::utf8::*;
use crate::classes::texts;
use crate::events::{consistent, HighlightEvent};
use crate::render::{html_document, render_html};
use crate::text::{lemma_text_renders_to_text, on_char_boundaries};
use crate::tokenizer::TokenizerEvent;

verus! {

/// The offset that the first `count` tokenizer events have reached: the end
/// of the last source range among them, or the start of the source.
pub open spec fn reached(raw: Seq<TokenizerEvent>, count: int) -> int
    decreases count,
{
    if count <= 0 {
        0
    } else {
        match raw[count - 1] {
            TokenizerEvent::Source { end, .. } => end as int,
            _ => reached(raw, count - 1),
        }
    }
}

/// Whether the source ranges of `raw` cover a source of `source_len` bytes
/// from its first byte to its last, each beginning where the one before it
/// ended.
pub open spec fn contiguous(raw: Seq<TokenizerEvent>, source_len: int) -> bool {
    &&& forall|k: int|
        0 <= k < raw.len() ==> (#[trigger] raw[k] matches TokenizerEvent::Source { start, end }
            ==> start == reached(raw, k) && start <= end <= source_len)
    &&& reached(raw, raw.len() as int) == source_len
}

/// The region boundaries among the first `count` tokenizer events, each at
/// the offset that the events before it have reached.
pub open spec fn placed(raw: Seq<TokenizerEvent>, count: int) -> Seq<HighlightEvent>
    decreases count,
{
    if count <= 0 {
        Seq::empty()
    } else {
        let before = placed(raw, count - 1);
        let offset = reached(raw, count - 1) as usize;
        match raw[count - 1] {
            TokenizerEvent::Source { .. } => before,
            TokenizerEvent::HighlightStart(capture) => before.push(
                HighlightEvent::Start { offset, capture },
            ),
            TokenizerEvent::HighlightEnd => before.push(HighlightEvent::End { offset }),
        }
    }
}

/// Places the tokenizer's region boundaries at byte offsets. The result is
/// `None` exactly when its source ranges do not cover the source in order.
pub fn events_from_tokenizer(raw: &[TokenizerEvent], source_len: usize) -> (res: Option<
    Vec<HighlightEvent>,
>)
    ensures
        res is Some <==> contiguous(raw@, source_len as int),
        res matches Some(events) ==> events@ == placed(raw@, raw@.len() as int),
{
    let mut events: Vec<HighlightEvent> = Vec::new();
    let mut offset: usize = 0;
    let mut index: usize = 0;
    while index < raw.len()
        invariant
            index <= raw@.len(),
            offset == reached(raw@, index as int),
            events@ == placed(raw@, index as int),
            forall|k: int|
                0 <= k < index ==> (#[trigger] raw@[k] matches TokenizerEvent::Source { start, end }
                    ==> start == reached(raw@, k) && start <= end <= source_len),
        decreases raw@.len() - index,
    {
        match raw[index] {
            TokenizerEvent::Source { start, end } => {
                if start != offset || end < start || end > source_len {
                    return None;
                }
                offset = end;
            },
            TokenizerEvent::HighlightStart(capture) => {
                events.push(HighlightEvent::Start { offset, capture });
            },
            TokenizerEvent::HighlightEnd => {
                events.push(HighlightEvent::End { offset });
            },
        }
        index += 1;
    }
    if offset == source_len {
        Some(events)
    } else {
        None
    }
}

/// Calls `String::from_utf8`, which succeeds exactly on well-formed UTF-8;
/// the string then holds the bytes it was given.
#[verifier::external_body]
pub(crate) fn string_from_utf8(bytes: Vec<u8>) -> (text: Option<String>)
    ensures
        text is Some <==> valid_utf8(bytes@),
        text matches Some(string) ==> encode_utf8(string@) == bytes@,
{
    String::from_utf8(bytes).ok()
}

/// The fragment for a source and the events that the tokenizer gave for it:
/// present when the source ranges cover the source, no region boundary is at
/// fault, and the bytes are well-formed UTF-8.
pub open spec fn rendered(
    lang: Seq<char>,
    source: Seq<u8>,
    raw: Seq<TokenizerEvent>,
    classes: Seq<Seq<char>>,
    separator: bool,
) -> Option<Seq<u8>> {
    let events = placed(raw, raw.len() as int);
    let html = html_document(lang, source, events, classes, separator);
    if contiguous(raw, source.len() as int) && consistent(
        source.len() as int,
        classes.len() as int,
        events,
    ) && valid_utf8(html) {
        Some(html)
    } else {
        None
    }
}

/// A source that is text, with source ranges that cover it and region
/// boundaries that are consistent and lie on character boundaries, is
/// rendered: the fragment is present, and it is the fragment for those events.
pub proof fn lemma_text_is_rendered(
    lang: Seq<char>,
    source: Seq<u8>,
    raw: Seq<TokenizerEvent>,
    classes: Seq<Seq<char>>,
    separator: bool,
)
    requires
        valid_utf8(source),
        contiguous(raw, source.len() as int),
        consistent(source.len() as int, classes.len() as int, placed(raw, raw.len() as int)),
        on_char_boundaries(source, placed(raw, raw.len() as int)),
    ensures
        rendered(lang, source, raw, classes, separator) == Some(
            html_document(lang, source, placed(raw, raw.len() as int), classes, separator),
        ),
{
    lemma_text_renders_to_text(lang, source, placed(raw, raw.len() as int), classes, separator);
}

/// The bytes of a fragment determine its text: two texts with the same bytes
/// are the same text, so the same arguments never render to different strings.
pub proof fn lemma_fragment_text_unique(first: Seq<char>, second: Seq<char>)
    requires
        encode_utf8(first) == encode_utf8(second),
    ensures
        first == second,
{
    encode_utf8_decode_utf8(first);
    encode_utf8_decode_utf8(second);
}

/// Renders `source` from the events that the tokenizer gave for it, as text.
/// The result is `None` when the events do not fit the source or the class
/// table, or when the fragment is not well-formed UTF-8.
pub fn render_tokenized(
    lang: &str,
    source: &[u8],
    raw: &[TokenizerEvent],
    classes: &[String],
    line_separator: bool,
) -> (text: Option<String>)
    ensures
        match text {
            Some(string) => rendered(lang@, source@, raw@, texts(classes@), line_separator)
                == Some(encode_utf8(string@)),
            None => rendered(lang@, source@, raw@, texts(classes@), line_separator) is None,
        },
{
    match events_from_tokenizer(raw, source.len()) {
        None => None,
        Some(events) => match render_html(lang, source, events.as_slice(), classes, line_separator) {
            Err(_) => None,
            Ok(html) => string_from_utf8(html),
        },
    }
}

} // verus!
