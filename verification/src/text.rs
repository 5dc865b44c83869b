//! When a fragment is text: a source that is well-formed UTF-8, with every
//! event on a character boundary, renders to well-formed UTF-8.

use vstd::prelude::*;
use vstd::string::*;
use vstd::utf8::*;
use crate::escape::{escape_byte, NEWLINE};
use crate::events::HighlightEvent;
use crate::render::{
    close_tag, html_document, lemma_render_token_first, lemma_render_tokens_concat, line_break,
    line_open, open_tag, render_tokens, shell_close, shell_open,
};
use crate::tokens::{body_tokens, closing, opening, tokens_from, Token};

verus! {

/// Whether every event lies on a character boundary of the source.
pub open spec fn on_char_boundaries(source: Seq<u8>, events: Seq<HighlightEvent>) -> bool {
    forall|k: int|
        0 <= k < events.len() ==> is_char_boundary(source, (#[trigger] events[k]).offset())
}

/// Whether no event from `next` on lies on a continuation byte of the source.
spec fn off_continuations(source: Seq<u8>, events: Seq<HighlightEvent>, next: int) -> bool {
    forall|k: int|
        next <= k < events.len() && (#[trigger] events[k]).offset() < source.len()
            ==> !is_continuation_byte(source[events[k].offset()])
}

/// A single ASCII byte is well-formed UTF-8.
proof fn lemma_ascii_byte_is_text(byte: u8)
    requires
        byte <= 0x7f,
    ensures
        valid_utf8(seq![byte]),
{
    let chars = seq![byte as char];
    assert(is_ascii_chars(chars));
    is_ascii_chars_encode_utf8(chars);
    assert(encode_utf8(chars) =~= seq![byte]);
    encode_utf8_valid_utf8(chars);
}

/// The escaped form of an ASCII byte is well-formed UTF-8.
proof fn lemma_escaped_ascii_is_text(byte: u8)
    requires
        byte <= 0x7f,
    ensures
        valid_utf8(escape_byte(byte)),
{
    lemma_ascii_byte_is_text(byte);
    encode_utf8_valid_utf8("&amp;"@);
    encode_utf8_valid_utf8("&lt;"@);
    encode_utf8_valid_utf8("&gt;"@);
    encode_utf8_valid_utf8("&quot;"@);
}

/// Every tag and every line break is well-formed UTF-8.
proof fn lemma_markup_is_text(class: Seq<char>, separator: bool)
    ensures
        valid_utf8(open_tag(class)),
        valid_utf8(close_tag()),
        valid_utf8(line_open()),
        valid_utf8(line_break(separator)),
{
    encode_utf8_valid_utf8("<span "@);
    encode_utf8_valid_utf8(class);
    encode_utf8_valid_utf8(">"@);
    encode_utf8_valid_utf8("</span>"@);
    encode_utf8_valid_utf8("<span class=line>"@);
    valid_utf8_concat("<span ".spec_bytes(), encode_utf8(class));
    valid_utf8_concat("<span ".spec_bytes() + encode_utf8(class), ">".spec_bytes());
    lemma_ascii_byte_is_text(NEWLINE);
    valid_utf8_concat(seq![NEWLINE], close_tag());
    if separator {
        valid_utf8_concat(seq![NEWLINE] + close_tag(), seq![NEWLINE]);
        valid_utf8_concat(seq![NEWLINE] + close_tag() + seq![NEWLINE], line_open());
    } else {
        assert(seq![NEWLINE] + close_tag() + Seq::<u8>::empty() =~= seq![NEWLINE] + close_tag());
        valid_utf8_concat(seq![NEWLINE] + close_tag(), line_open());
    }
}

/// Any run of tags is well-formed UTF-8.
proof fn lemma_tags_are_text(
    captures: Seq<usize>,
    count: nat,
    classes: Seq<Seq<char>>,
    separator: bool,
)
    ensures
        valid_utf8(render_tokens(opening(captures), classes, separator)),
        valid_utf8(render_tokens(closing(count), classes, separator)),
    decreases captures.len() + count,
{
    if captures.len() > 0 {
        let rest = captures.drop_first();
        assert(opening(captures) =~= seq![Token::Open(captures[0])] + opening(rest));
        lemma_render_token_first(Token::Open(captures[0]), opening(rest), classes, separator);
        lemma_tags_are_text(rest, count, classes, separator);
        lemma_markup_is_text(classes[captures[0] as int], separator);
        valid_utf8_concat(
            open_tag(classes[captures[0] as int]),
            render_tokens(opening(rest), classes, separator),
        );
    } else if count > 0 {
        let fewer = (count - 1) as nat;
        assert(closing(count) =~= seq![Token::Close] + closing(fewer));
        lemma_render_token_first(Token::Close, closing(fewer), classes, separator);
        lemma_tags_are_text(captures, fewer, classes, separator);
        lemma_markup_is_text(Seq::empty(), separator);
        valid_utf8_concat(close_tag(), render_tokens(closing(fewer), classes, separator));
    }
}

/// A run of bytes that are not ASCII, during which no event is due, is
/// written as it stands.
proof fn lemma_raw_run(
    source: Seq<u8>,
    events: Seq<HighlightEvent>,
    at: int,
    count: int,
    next: int,
    open: Seq<usize>,
    classes: Seq<Seq<char>>,
    separator: bool,
)
    requires
        0 <= at,
        0 <= count,
        at + count <= source.len(),
        0 <= next <= events.len(),
        forall|j: int| at <= j < at + count ==> source[j] > 0x7f,
        next < events.len() ==> events[next].offset() >= at + count,
    ensures
        render_tokens(tokens_from(source, events, at, next, open), classes, separator)
            == source.subrange(at, at + count) + render_tokens(
            tokens_from(source, events, at + count, next, open),
            classes,
            separator,
        ),
    decreases count,
{
    let rest = render_tokens(
        tokens_from(source, events, at + count, next, open),
        classes,
        separator,
    );
    if count == 0 {
        assert(source.subrange(at, at) + rest =~= rest);
    } else {
        lemma_raw_run(source, events, at + 1, count - 1, next, open, classes, separator);
        lemma_render_token_first(
            Token::Text(source[at]),
            tokens_from(source, events, at + 1, next, open),
            classes,
            separator,
        );
        assert(source.subrange(at, at + count) =~= seq![source[at]] + source.subrange(
            at + 1,
            at + count,
        ));
        assert(seq![source[at]] + (source.subrange(at + 1, at + count) + rest) =~= source.subrange(
            at,
            at + count,
        ) + rest);
    }
}

/// From a point of the walk where a character begins, what is still to come
/// is well-formed UTF-8.
proof fn lemma_text_from(
    source: Seq<u8>,
    events: Seq<HighlightEvent>,
    at: int,
    next: int,
    open: Seq<usize>,
    classes: Seq<Seq<char>>,
    separator: bool,
)
    requires
        0 <= at <= source.len(),
        0 <= next <= events.len(),
        valid_utf8(source.skip(at)),
        off_continuations(source, events, next),
    ensures
        valid_utf8(render_tokens(tokens_from(source, events, at, next, open), classes, separator)),
    decreases source.len() - at + events.len() - next,
{
    let tokens = tokens_from(source, events, at, next, open);
    lemma_tags_are_text(open, open.len(), classes, separator);
    if next < events.len() && events[next].offset() <= at {
        match events[next] {
            HighlightEvent::Start { capture, .. } => {
                let rest = tokens_from(source, events, at, next + 1, open.push(capture));
                lemma_text_from(source, events, at, next + 1, open.push(capture), classes, separator);
                lemma_render_token_first(Token::Open(capture), rest, classes, separator);
                lemma_markup_is_text(classes[capture as int], separator);
                valid_utf8_concat(
                    open_tag(classes[capture as int]),
                    render_tokens(rest, classes, separator),
                );
            },
            HighlightEvent::End { .. } => {
                let rest = tokens_from(source, events, at, next + 1, open.drop_last());
                lemma_text_from(source, events, at, next + 1, open.drop_last(), classes, separator);
                lemma_render_token_first(Token::Close, rest, classes, separator);
                lemma_markup_is_text(Seq::empty(), separator);
                valid_utf8_concat(close_tag(), render_tokens(rest, classes, separator));
            },
        }
    } else if at < source.len() {
        let tail = source.skip(at);
        let width = length_of_first_scalar(tail);
        assert(valid_first_scalar(tail) && valid_utf8(pop_first_scalar(tail)));
        assert(pop_first_scalar(tail) =~= source.skip(at + width));
        assert(forall|j: int| 0 <= j < width ==> tail[j] == source[at + j]);
        lemma_text_from(source, events, at + width, next, open, classes, separator);
        let rest = render_tokens(
            tokens_from(source, events, at + width, next, open),
            classes,
            separator,
        );
        if width == 1 {
            let after = tokens_from(source, events, at + 1, next, open);
            if source[at] == NEWLINE {
                let shut = closing(open.len());
                let reopened = opening(open);
                let line = seq![Token::LineBreak] + (reopened + after);
                assert(tokens =~= shut + line);
                lemma_render_tokens_concat(shut, line, classes, separator);
                lemma_render_token_first(Token::LineBreak, reopened + after, classes, separator);
                lemma_render_tokens_concat(reopened, after, classes, separator);
                lemma_markup_is_text(Seq::empty(), separator);
                valid_utf8_concat(render_tokens(reopened, classes, separator), rest);
                valid_utf8_concat(
                    line_break(separator),
                    render_tokens(reopened, classes, separator) + rest,
                );
                valid_utf8_concat(
                    render_tokens(shut, classes, separator),
                    line_break(separator) + (render_tokens(reopened, classes, separator) + rest),
                );
            } else {
                lemma_render_token_first(Token::Text(source[at]), after, classes, separator);
                lemma_escaped_ascii_is_text(source[at]);
                valid_utf8_concat(escape_byte(source[at]), rest);
            }
        } else {
            assert forall|j: int| at <= j < at + width implies source[j] > 0x7f by {
                assert(source[j] == tail[j - at]);
            }
            if next < events.len() {
                let offset = events[next].offset();
                if offset < at + width {
                    assert(is_continuation_byte(tail[offset - at]));
                    assert(events[next].offset() < source.len());
                }
            }
            lemma_raw_run(source, events, at, width, next, open, classes, separator);
            assert(valid_utf8(take_first_scalar(tail))) by {
                reveal_with_fuel(valid_utf8, 2);
            }
            assert(source.subrange(at, at + width) =~= take_first_scalar(tail));
            valid_utf8_concat(source.subrange(at, at + width), rest);
        }
    }
}

/// A source that is well-formed UTF-8, with every event on a character
/// boundary, renders to well-formed UTF-8, whatever the language identifier
/// and the class table hold.
pub proof fn lemma_text_renders_to_text(
    lang: Seq<char>,
    source: Seq<u8>,
    events: Seq<HighlightEvent>,
    classes: Seq<Seq<char>>,
    separator: bool,
)
    requires
        valid_utf8(source),
        on_char_boundaries(source, events),
    ensures
        valid_utf8(html_document(lang, source, events, classes, separator)),
{
    assert(off_continuations(source, events, 0)) by {
        assert forall|k: int|
            0 <= k < events.len() && (#[trigger] events[k]).offset() < source.len()
                implies !is_continuation_byte(source[events[k].offset()]) by {
            is_char_boundary_iff_not_is_continuation_byte(source, events[k].offset());
        }
    }
    assert(source.skip(0) =~= source);
    lemma_text_from(source, events, 0, 0, Seq::empty(), classes, separator);
    let body = render_tokens(body_tokens(source, events), classes, separator);
    lemma_markup_is_text(Seq::empty(), separator);
    encode_utf8_valid_utf8("<pre class=language-"@);
    encode_utf8_valid_utf8(lang);
    encode_utf8_valid_utf8("><code>"@);
    encode_utf8_valid_utf8("</code></pre>"@);
    valid_utf8_concat("<pre class=language-".spec_bytes(), encode_utf8(lang));
    valid_utf8_concat(
        "<pre class=language-".spec_bytes() + encode_utf8(lang),
        "><code>".spec_bytes(),
    );
    valid_utf8_concat(shell_open(lang), line_open());
    valid_utf8_concat(shell_open(lang) + line_open(), body);
    valid_utf8_concat(shell_open(lang) + line_open() + body, close_tag());
    valid_utf8_concat(shell_open(lang) + line_open() + body + close_tag(), shell_close());
}

} // verus!
