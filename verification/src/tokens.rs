//! The markup of a rendered source as a sequence of tokens, and what holds of
//! that sequence: tags balance within every line, the text is the source, and
//! there is one line more than there are newlines.

use vstd::prelude::*;
use crate::escape::{
    decode_entities, escape_byte, escape_text, lemma_escape_round_trip, NEWLINE,
};
use crate::events::{
    consistent, event_fault, lemma_open_captures_step, open_captures, HighlightEvent,
};

verus! {

/// One piece of the markup inside the first line-span's opening tag and the
/// last line-span's closing tag.
pub enum Token {
    /// The opening tag of a region with this capture index.
    Open(usize),
    /// The closing tag of the innermost open region.
    Close,
    /// One literal byte of the source, other than a newline.
    Text(u8),
    /// A newline of the source: the last byte of one line-span, after which
    /// the next line-span begins.
    LineBreak,
}

/// `count` closing tags.
pub open spec fn closing(count: nat) -> Seq<Token> {
    Seq::new(count, |k: int| Token::Close)
}

/// The opening tags of `captures`, outermost first.
pub open spec fn opening(captures: Seq<usize>) -> Seq<Token> {
    Seq::new(captures.len(), |k: int| Token::Open(captures[k]))
}

/// The tokens for the source from byte `at` on and the events from `next` on,
/// while the regions in `open` are open. An event is due once the walk has
/// reached its offset, and due events come before the byte at that offset. A
/// newline closes every open region, breaks the line, and reopens them in the
/// order in which they were opened; the end of the source closes what is left.
pub open spec fn tokens_from(
    source: Seq<u8>,
    events: Seq<HighlightEvent>,
    at: int,
    next: int,
    open: Seq<usize>,
) -> Seq<Token>
    decreases source.len() - at + events.len() - next,
{
    if at < 0 || at > source.len() || next < 0 || next > events.len() {
        Seq::empty()
    } else if next < events.len() && events[next].offset() <= at {
        match events[next] {
            HighlightEvent::Start { capture, .. } => seq![Token::Open(capture)] + tokens_from(
                source,
                events,
                at,
                next + 1,
                open.push(capture),
            ),
            HighlightEvent::End { .. } => seq![Token::Close] + tokens_from(
                source,
                events,
                at,
                next + 1,
                open.drop_last(),
            ),
        }
    } else if at < source.len() {
        if source[at] == NEWLINE {
            closing(open.len()) + seq![Token::LineBreak] + opening(open) + tokens_from(
                source,
                events,
                at + 1,
                next,
                open,
            )
        } else {
            seq![Token::Text(source[at])] + tokens_from(source, events, at + 1, next, open)
        }
    } else {
        closing(open.len())
    }
}

/// The tokens of a whole source under a stream of events.
pub open spec fn body_tokens(source: Seq<u8>, events: Seq<HighlightEvent>) -> Seq<Token> {
    tokens_from(source, events, 0, 0, Seq::empty())
}

/// Whether `tokens`, read with `depth` regions open, close only what is open,
/// have no region open at a line break, and leave none open at the end.
pub open spec fn nested(tokens: Seq<Token>, depth: int) -> bool
    decreases tokens.len(),
{
    if tokens.len() == 0 {
        depth == 0
    } else {
        match tokens[0] {
            Token::Open(_) => nested(tokens.drop_first(), depth + 1),
            Token::Close => depth > 0 && nested(tokens.drop_first(), depth - 1),
            Token::Text(_) => nested(tokens.drop_first(), depth),
            Token::LineBreak => depth == 0 && nested(tokens.drop_first(), 0),
        }
    }
}

/// Every opening tag has its closing tag, tags nest, and no region spans a
/// line break.
pub open spec fn well_nested(tokens: Seq<Token>) -> bool {
    nested(tokens, 0)
}

/// The literal text that the tokens carry, a newline for each line break.
pub open spec fn source_text(tokens: Seq<Token>) -> Seq<u8>
    decreases tokens.len(),
{
    if tokens.len() == 0 {
        Seq::empty()
    } else {
        (match tokens[0] {
            Token::Text(byte) => seq![byte],
            Token::LineBreak => seq![NEWLINE],
            _ => Seq::empty(),
        }) + source_text(tokens.drop_first())
    }
}

/// The text of the tokens as it is written out inside the line-spans: every
/// literal byte escaped, the newline of each line break, nothing for a tag.
pub open spec fn escaped_text(tokens: Seq<Token>) -> Seq<u8>
    decreases tokens.len(),
{
    if tokens.len() == 0 {
        Seq::empty()
    } else {
        (match tokens[0] {
            Token::Text(byte) => escape_byte(byte),
            Token::LineBreak => seq![NEWLINE],
            _ => Seq::empty(),
        }) + escaped_text(tokens.drop_first())
    }
}

/// The number of line breaks among the tokens.
pub open spec fn break_count(tokens: Seq<Token>) -> nat
    decreases tokens.len(),
{
    if tokens.len() == 0 {
        0
    } else {
        (match tokens[0] {
            Token::LineBreak => 1nat,
            _ => 0nat,
        }) + break_count(tokens.drop_first())
    }
}

/// The number of line-spans that the tokens fill.
pub open spec fn line_count(tokens: Seq<Token>) -> nat {
    break_count(tokens) + 1
}

/// The number of newline bytes in `bytes`.
pub open spec fn newline_count(bytes: Seq<u8>) -> nat
    decreases bytes.len(),
{
    if bytes.len() == 0 {
        0
    } else {
        (if bytes[0] == NEWLINE {
            1nat
        } else {
            0nat
        }) + newline_count(bytes.drop_first())
    }
}

/// Opening tags in front add to the depth at which the rest is read.
proof fn lemma_nested_after_opening(captures: Seq<usize>, rest: Seq<Token>, depth: int)
    ensures
        nested(opening(captures) + rest, depth) == nested(rest, depth + captures.len()),
    decreases captures.len(),
{
    let tokens = opening(captures) + rest;
    if captures.len() == 0 {
        assert(tokens =~= rest);
    } else {
        assert(tokens[0] == Token::Open(captures[0]));
        assert(tokens.drop_first() =~= opening(captures.drop_first()) + rest);
        lemma_nested_after_opening(captures.drop_first(), rest, depth + 1);
    }
}

/// Closing tags in front, no more than there are open regions, take from
/// the depth at which the rest is read.
proof fn lemma_nested_after_closing(count: nat, rest: Seq<Token>, depth: int)
    requires
        depth >= count,
    ensures
        nested(closing(count) + rest, depth) == nested(rest, depth - count),
    decreases count,
{
    let tokens = closing(count) + rest;
    if count == 0 {
        assert(tokens =~= rest);
    } else {
        assert(tokens[0] == Token::Close);
        assert(tokens.drop_first() =~= closing((count - 1) as nat) + rest);
        lemma_nested_after_closing((count - 1) as nat, rest, depth - 1);
    }
}

/// The text of two runs of tokens, one after the other.
proof fn lemma_source_text_concat(left: Seq<Token>, right: Seq<Token>)
    ensures
        source_text(left + right) == source_text(left) + source_text(right),
    decreases left.len(),
{
    if left.len() == 0 {
        assert(left + right =~= right);
        assert(source_text(left) + source_text(right) =~= source_text(right));
    } else {
        assert((left + right).drop_first() =~= left.drop_first() + right);
        lemma_source_text_concat(left.drop_first(), right);
        assert(source_text(left + right) =~= source_text(left) + source_text(right));
    }
}

/// The line breaks of two runs of tokens, one after the other.
proof fn lemma_break_count_concat(left: Seq<Token>, right: Seq<Token>)
    ensures
        break_count(left + right) == break_count(left) + break_count(right),
    decreases left.len(),
{
    if left.len() == 0 {
        assert(left + right =~= right);
    } else {
        assert((left + right).drop_first() =~= left.drop_first() + right);
        lemma_break_count_concat(left.drop_first(), right);
    }
}

/// Tags carry neither text nor line breaks.
proof fn lemma_tags_carry_no_text(captures: Seq<usize>, count: nat)
    ensures
        source_text(opening(captures)) == Seq::<u8>::empty(),
        source_text(closing(count)) == Seq::<u8>::empty(),
        break_count(opening(captures)) == 0,
        break_count(closing(count)) == 0,
    decreases captures.len() + count,
{
    if captures.len() > 0 {
        assert(opening(captures).drop_first() =~= opening(captures.drop_first()));
        lemma_tags_carry_no_text(captures.drop_first(), count);
        assert(source_text(opening(captures)) =~= Seq::<u8>::empty());
    } else if count > 0 {
        assert(closing(count).drop_first() =~= closing((count - 1) as nat));
        lemma_tags_carry_no_text(captures, (count - 1) as nat);
        assert(source_text(closing(count)) =~= Seq::<u8>::empty());
    }
}

/// From any point of the walk on, the tokens of a consistent stream nest at
/// the depth of the regions then open.
proof fn lemma_nested_from(
    source: Seq<u8>,
    events: Seq<HighlightEvent>,
    class_count: int,
    at: int,
    next: int,
)
    requires
        consistent(source.len() as int, class_count, events),
        0 <= at <= source.len(),
        0 <= next <= events.len(),
    ensures
        nested(
            tokens_from(source, events, at, next, open_captures(events.take(next))),
            open_captures(events.take(next)).len() as int,
        ),
    decreases source.len() - at + events.len() - next,
{
    let open = open_captures(events.take(next));
    let tokens = tokens_from(source, events, at, next, open);
    if next < events.len() && events[next].offset() <= at {
        lemma_open_captures_step(events, next);
        lemma_nested_from(source, events, class_count, at, next + 1);
        assert(event_fault(source.len() as int, class_count, events, next) is None);
        let rest = tokens_from(source, events, at, next + 1, open_captures(events.take(next + 1)));
        assert(tokens.drop_first() =~= rest);
    } else if at < source.len() {
        lemma_nested_from(source, events, class_count, at + 1, next);
        let rest = tokens_from(source, events, at + 1, next, open);
        if source[at] == NEWLINE {
            let tail = seq![Token::LineBreak] + (opening(open) + rest);
            assert(tokens =~= closing(open.len()) + tail);
            lemma_nested_after_closing(open.len(), tail, open.len() as int);
            assert(tail.drop_first() =~= opening(open) + rest);
            lemma_nested_after_opening(open, rest, 0);
        } else {
            assert(tokens.drop_first() =~= rest);
        }
    } else {
        assert(tokens =~= closing(open.len()) + Seq::<Token>::empty());
        lemma_nested_after_closing(open.len(), Seq::<Token>::empty(), open.len() as int);
    }
}

/// From any point of the walk on, the tokens carry the source from there on,
/// with one line break for each of its newlines.
proof fn lemma_source_text_from(
    source: Seq<u8>,
    events: Seq<HighlightEvent>,
    at: int,
    next: int,
    open: Seq<usize>,
)
    requires
        0 <= at <= source.len(),
        0 <= next <= events.len(),
    ensures
        source_text(tokens_from(source, events, at, next, open)) == source.skip(at),
        break_count(tokens_from(source, events, at, next, open)) == newline_count(source.skip(at)),
    decreases source.len() - at + events.len() - next,
{
    let tokens = tokens_from(source, events, at, next, open);
    lemma_tags_carry_no_text(open, open.len());
    if next < events.len() && events[next].offset() <= at {
        let after = match events[next] {
            HighlightEvent::Start { capture, .. } => open.push(capture),
            HighlightEvent::End { .. } => open.drop_last(),
        };
        lemma_source_text_from(source, events, at, next + 1, after);
        assert(tokens.drop_first() =~= tokens_from(source, events, at, next + 1, after));
        assert(source_text(tokens) =~= source.skip(at));
    } else if at < source.len() {
        lemma_source_text_from(source, events, at + 1, next, open);
        let rest = tokens_from(source, events, at + 1, next, open);
        assert(source.skip(at).drop_first() =~= source.skip(at + 1));
        assert(source.skip(at) =~= seq![source[at]] + source.skip(at + 1));
        if source[at] == NEWLINE {
            let tail = seq![Token::LineBreak] + (opening(open) + rest);
            assert(tokens =~= closing(open.len()) + tail);
            lemma_source_text_concat(closing(open.len()), tail);
            lemma_break_count_concat(closing(open.len()), tail);
            assert(tail.drop_first() =~= opening(open) + rest);
            lemma_source_text_concat(opening(open), rest);
            lemma_break_count_concat(opening(open), rest);
            assert(source_text(tokens) =~= source.skip(at));
        } else {
            assert(tokens.drop_first() =~= rest);
        }
    } else {
        assert(source.skip(at) =~= Seq::<u8>::empty());
    }
}

/// In the markup of a consistent stream every opening tag has its closing tag,
/// tags nest, and no region is open across a line break or at the end.
pub proof fn lemma_markup_well_nested(
    source: Seq<u8>,
    events: Seq<HighlightEvent>,
    class_count: int,
)
    requires
        consistent(source.len() as int, class_count, events),
    ensures
        well_nested(body_tokens(source, events)),
{
    assert(events.take(0) =~= Seq::<HighlightEvent>::empty());
    lemma_nested_from(source, events, class_count, 0, 0);
}

/// The text of the markup is the source, byte for byte, whatever the events.
pub proof fn lemma_markup_keeps_text(source: Seq<u8>, events: Seq<HighlightEvent>)
    ensures
        source_text(body_tokens(source, events)) == source,
{
    lemma_source_text_from(source, events, 0, 0, Seq::empty());
    assert(source.skip(0) =~= source);
}

/// What is written for the text of tokens is the escaped form of that text.
pub proof fn lemma_escaped_text(tokens: Seq<Token>)
    ensures
        escaped_text(tokens) == escape_text(source_text(tokens)),
    decreases tokens.len(),
{
    if tokens.len() == 0 {
        assert(escape_text(source_text(tokens)) =~= Seq::<u8>::empty());
    } else {
        let rest = tokens.drop_first();
        lemma_escaped_text(rest);
        match tokens[0] {
            Token::Text(byte) => {
                assert((seq![byte] + source_text(rest)).drop_first() =~= source_text(rest));
            },
            Token::LineBreak => {
                assert((seq![NEWLINE] + source_text(rest)).drop_first() =~= source_text(rest));
            },
            _ => {
                assert(Seq::<u8>::empty() + source_text(rest) =~= source_text(rest));
                assert(Seq::<u8>::empty() + escaped_text(rest) =~= escaped_text(rest));
            },
        }
    }
}

/// The text written for a source decodes to that source: with the tags taken
/// out of the line-spans and the entities read back, every source byte is
/// there again, in order, whatever the events.
pub proof fn lemma_markup_text_round_trip(source: Seq<u8>, events: Seq<HighlightEvent>)
    ensures
        decode_entities(escaped_text(body_tokens(source, events))) == source,
{
    lemma_escaped_text(body_tokens(source, events));
    lemma_markup_keeps_text(source, events);
    lemma_escape_round_trip(source);
}

/// A source with `k` newline bytes fills `k + 1` line-spans.
pub proof fn lemma_line_count(source: Seq<u8>, events: Seq<HighlightEvent>)
    ensures
        line_count(body_tokens(source, events)) == newline_count(source) + 1,
{
    lemma_source_text_from(source, events, 0, 0, Seq::empty());
    assert(source.skip(0) =~= source);
}

} // verus!
