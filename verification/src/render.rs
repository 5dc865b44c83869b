//! The renderer: source bytes, highlight events and a class table become one
//! HTML fragment of line-spans inside a `pre` and `code` shell.

use vstd::prelude::*;
use vstd::string::*;
use vstd::utf8::*;
use crate::classes::texts;
use crate::escape::{escape_byte, push_escaped, NEWLINE};
use crate::events::{
    check_events, consistent, event_fault, first_fault, lemma_consistent_iff_no_fault,
    lemma_open_captures_step, open_captures, HighlightEvent, RenderFailure,
};
use crate::tokens::{body_tokens, closing, opening, tokens_from, Token};

verus! {

/// The opening tag of a region: `<span `, the class attribute, `>`.
pub open spec fn open_tag(class: Seq<char>) -> Seq<u8> {
    "<span ".spec_bytes() + encode_utf8(class) + ">".spec_bytes()
}

/// The closing tag of a region or of a line-span.
pub open spec fn close_tag() -> Seq<u8> {
    "</span>".spec_bytes()
}

/// The opening tag of a line-span.
pub open spec fn line_open() -> Seq<u8> {
    "<span class=line>".spec_bytes()
}

/// What a newline of the source becomes once the open regions are closed:
/// the newline itself, which is the last byte of its line, the end of that
/// line-span, one more newline if line-spans are separated, and the beginning
/// of the next line-span.
pub open spec fn line_break(separator: bool) -> Seq<u8> {
    seq![NEWLINE] + close_tag() + (if separator {
        seq![NEWLINE]
    } else {
        Seq::empty()
    }) + line_open()
}

/// The bytes of one token.
pub open spec fn token_bytes(token: Token, classes: Seq<Seq<char>>, separator: bool) -> Seq<u8> {
    match token {
        Token::Open(capture) => open_tag(classes[capture as int]),
        Token::Close => close_tag(),
        Token::Text(byte) => escape_byte(byte),
        Token::LineBreak => line_break(separator),
    }
}

/// The bytes of a sequence of tokens, in order.
pub open spec fn render_tokens(tokens: Seq<Token>, classes: Seq<Seq<char>>, separator: bool) -> Seq<
    u8,
>
    decreases tokens.len(),
{
    if tokens.len() == 0 {
        Seq::empty()
    } else {
        token_bytes(tokens[0], classes, separator) + render_tokens(
            tokens.drop_first(),
            classes,
            separator,
        )
    }
}

/// What opens the fragment: the `pre` tag with the language class, then the
/// `code` tag.
pub open spec fn shell_open(lang: Seq<char>) -> Seq<u8> {
    "<pre class=language-".spec_bytes() + encode_utf8(lang) + "><code>".spec_bytes()
}

/// What closes the fragment.
pub open spec fn shell_close() -> Seq<u8> {
    "</code></pre>".spec_bytes()
}

/// The whole fragment for `source` under `events`: the shell around the
/// line-spans, the first of which opens before the first token and the last
/// of which closes after the last.
pub open spec fn html_document(
    lang: Seq<char>,
    source: Seq<u8>,
    events: Seq<HighlightEvent>,
    classes: Seq<Seq<char>>,
    separator: bool,
) -> Seq<u8> {
    shell_open(lang) + line_open() + render_tokens(body_tokens(source, events), classes, separator)
        + close_tag() + shell_close()
}

/// The bytes of two runs of tokens, one after the other.
pub(crate) proof fn lemma_render_tokens_concat(
    left: Seq<Token>,
    right: Seq<Token>,
    classes: Seq<Seq<char>>,
    separator: bool,
)
    ensures
        render_tokens(left + right, classes, separator) == render_tokens(left, classes, separator)
            + render_tokens(right, classes, separator),
    decreases left.len(),
{
    if left.len() == 0 {
        assert(left + right =~= right);
        assert(render_tokens(left, classes, separator) + render_tokens(right, classes, separator)
            =~= render_tokens(right, classes, separator));
    } else {
        assert((left + right).drop_first() =~= left.drop_first() + right);
        lemma_render_tokens_concat(left.drop_first(), right, classes, separator);
        assert(render_tokens(left + right, classes, separator) =~= render_tokens(
            left,
            classes,
            separator,
        ) + render_tokens(right, classes, separator));
    }
}

/// The bytes of a single token.
proof fn lemma_render_one_token(token: Token, classes: Seq<Seq<char>>, separator: bool)
    ensures
        render_tokens(seq![token], classes, separator) == token_bytes(token, classes, separator),
{
    assert(seq![token].drop_first() =~= Seq::<Token>::empty());
    assert(render_tokens(Seq::<Token>::empty(), classes, separator) =~= Seq::<u8>::empty());
    assert(render_tokens(seq![token], classes, separator) =~= token_bytes(
        token,
        classes,
        separator,
    ));
}

/// The bytes of a token followed by more tokens.
pub(crate) proof fn lemma_render_token_first(
    token: Token,
    rest: Seq<Token>,
    classes: Seq<Seq<char>>,
    separator: bool,
)
    ensures
        render_tokens(seq![token] + rest, classes, separator) == token_bytes(
            token,
            classes,
            separator,
        ) + render_tokens(rest, classes, separator),
{
    assert((seq![token] + rest).drop_first() =~= rest);
}

/// The bytes of one event: the opening tag of its region, or a closing tag.
pub open spec fn event_markup(event: HighlightEvent, classes: Seq<Seq<char>>) -> Seq<u8> {
    match event {
        HighlightEvent::Start { capture, .. } => open_tag(classes[capture as int]),
        HighlightEvent::End { .. } => close_tag(),
    }
}

/// The bytes of one source byte while the regions in `open` are open: a
/// newline closes them all, ends the line and reopens them in order on the
/// next; any other byte is escaped.
pub open spec fn byte_markup(
    byte: u8,
    open: Seq<usize>,
    classes: Seq<Seq<char>>,
    separator: bool,
) -> Seq<u8> {
    if byte == NEWLINE {
        render_tokens(closing(open.len()), classes, separator) + line_break(separator)
            + render_tokens(opening(open), classes, separator)
    } else {
        escape_byte(byte)
    }
}

/// The regions open after `event`, given those open before it.
pub open spec fn open_after(event: HighlightEvent, open: Seq<usize>) -> Seq<usize> {
    match event {
        HighlightEvent::Start { capture, .. } => open.push(capture),
        HighlightEvent::End { .. } => open.drop_last(),
    }
}

/// The bytes still to come from byte `at` and event `next` on.
#[verifier::opaque]
spec fn pending(
    source: Seq<u8>,
    events: Seq<HighlightEvent>,
    at: int,
    next: int,
    open: Seq<usize>,
    classes: Seq<Seq<char>>,
    separator: bool,
) -> Seq<u8> {
    render_tokens(tokens_from(source, events, at, next, open), classes, separator)
}

/// What a due event of a consistent stream brings: a capture that the class
/// table holds, or an open region to close; the regions open after it; and
/// the bytes still to come, which are its tag and then the rest.
proof fn lemma_due_event(
    source: Seq<u8>,
    events: Seq<HighlightEvent>,
    at: int,
    next: int,
    classes: Seq<Seq<char>>,
    separator: bool,
)
    requires
        consistent(source.len() as int, classes.len() as int, events),
        0 <= at <= source.len(),
        0 <= next < events.len(),
        events[next].offset() <= at,
    ensures
        events[next] matches HighlightEvent::Start { capture, .. } ==> capture < classes.len(),
        events[next] is End ==> open_captures(events.take(next)).len() > 0,
        open_captures(events.take(next + 1)) == open_after(
            events[next],
            open_captures(events.take(next)),
        ),
        pending(source, events, at, next, open_captures(events.take(next)), classes, separator)
            == event_markup(events[next], classes) + pending(
            source,
            events,
            at,
            next + 1,
            open_captures(events.take(next + 1)),
            classes,
            separator,
        ),
{
    reveal(pending);
    let open = open_captures(events.take(next));
    lemma_open_captures_step(events, next);
    assert(event_fault(source.len() as int, classes.len() as int, events, next) is None);
    match events[next] {
        HighlightEvent::Start { capture, .. } => {
            lemma_render_token_first(
                Token::Open(capture),
                tokens_from(source, events, at, next + 1, open.push(capture)),
                classes,
                separator,
            );
        },
        HighlightEvent::End { .. } => {
            lemma_render_token_first(
                Token::Close,
                tokens_from(source, events, at, next + 1, open.drop_last()),
                classes,
                separator,
            );
        },
    }
}

/// When no event of a consistent stream is due, a source byte is: its markup
/// comes next, and then the rest.
proof fn lemma_due_byte(
    source: Seq<u8>,
    events: Seq<HighlightEvent>,
    at: int,
    next: int,
    open: Seq<usize>,
    classes: Seq<Seq<char>>,
    separator: bool,
)
    requires
        consistent(source.len() as int, classes.len() as int, events),
        0 <= at <= source.len(),
        0 <= next <= events.len(),
        at < source.len() || next < events.len(),
        !(next < events.len() && events[next].offset() <= at),
    ensures
        at < source.len(),
        pending(source, events, at, next, open, classes, separator) == byte_markup(
            source[at],
            open,
            classes,
            separator,
        ) + pending(source, events, at + 1, next, open, classes, separator),
{
    reveal(pending);
    if next < events.len() {
        assert(event_fault(source.len() as int, classes.len() as int, events, next) is None);
    }
    let tokens = tokens_from(source, events, at, next, open);
    let rest = tokens_from(source, events, at + 1, next, open);
    if source[at] == NEWLINE {
        let shut = closing(open.len());
        let reopened = opening(open);
        let tail = seq![Token::LineBreak] + (reopened + rest);
        assert(tokens =~= shut + tail);
        lemma_render_tokens_concat(shut, tail, classes, separator);
        lemma_render_token_first(Token::LineBreak, reopened + rest, classes, separator);
        lemma_render_tokens_concat(reopened, rest, classes, separator);
        assert(render_tokens(tokens, classes, separator) =~= byte_markup(
            source[at],
            open,
            classes,
            separator,
        ) + render_tokens(rest, classes, separator));
    } else {
        lemma_render_token_first(Token::Text(source[at]), rest, classes, separator);
    }
}

/// After the last byte and the last event only the closing tags of the open
/// regions are still to come.
proof fn lemma_pending_at_end(
    source: Seq<u8>,
    events: Seq<HighlightEvent>,
    open: Seq<usize>,
    classes: Seq<Seq<char>>,
    separator: bool,
)
    ensures
        pending(
            source,
            events,
            source.len() as int,
            events.len() as int,
            open,
            classes,
            separator,
        ) == render_tokens(closing(open.len()), classes, separator),
{
    reveal(pending);
}

/// Before the first byte and the first event the whole body is still to come.
proof fn lemma_pending_at_start(
    source: Seq<u8>,
    events: Seq<HighlightEvent>,
    classes: Seq<Seq<char>>,
    separator: bool,
)
    ensures
        pending(source, events, 0, 0, Seq::empty(), classes, separator) == render_tokens(
            body_tokens(source, events),
            classes,
            separator,
        ),
        open_captures(events.take(0)) == Seq::<usize>::empty(),
{
    reveal(pending);
    assert(events.take(0) =~= Seq::<HighlightEvent>::empty());
}

/// Appending a piece moves it from what is still to come to what is written.
proof fn lemma_written(written: Seq<u8>, piece: Seq<u8>, rest: Seq<u8>)
    ensures
        (written + piece) + rest == written + (piece + rest),
{
    assert((written + piece) + rest =~= written + (piece + rest));
}

/// Appends the bytes of `text` to `out`.
fn push_text(out: &mut Vec<u8>, text: &str)
    ensures
        final(out)@ == old(out)@ + text.spec_bytes(),
{
    out.extend_from_slice(text.as_bytes());
}

/// Appends `count` closing tags.
fn push_closing(
    out: &mut Vec<u8>,
    count: usize,
    Ghost(classes): Ghost<Seq<Seq<char>>>,
    Ghost(separator): Ghost<bool>,
)
    ensures
        final(out)@ == old(out)@ + render_tokens(closing(count as nat), classes, separator),
{
    let mut done: usize = 0;
    assert(out@ =~= old(out)@ + render_tokens(closing(0), classes, separator));
    while done < count
        invariant
            done <= count,
            out@ == old(out)@ + render_tokens(closing(done as nat), classes, separator),
        decreases count - done,
    {
        push_text(out, "</span>");
        proof {
            assert(closing((done + 1) as nat) =~= closing(done as nat) + seq![Token::Close]);
            lemma_render_tokens_concat(closing(done as nat), seq![Token::Close], classes, separator);
            lemma_render_one_token(Token::Close, classes, separator);
            assert(out@ =~= old(out)@ + render_tokens(
                closing((done + 1) as nat),
                classes,
                separator,
            ));
        }
        done += 1;
    }
}

/// Appends the opening tag of a region with the class attribute `class`.
fn push_open_tag(out: &mut Vec<u8>, class: &String)
    ensures
        final(out)@ == old(out)@ + open_tag(class@),
{
    push_text(out, "<span ");
    push_text(out, class.as_str());
    push_text(out, ">");
    assert(out@ =~= old(out)@ + open_tag(class@));
}

/// Appends the opening tags of the regions in `open`, outermost first.
fn push_opening(
    out: &mut Vec<u8>,
    open: &Vec<usize>,
    classes: &[String],
    Ghost(separator): Ghost<bool>,
)
    requires
        forall|k: int| 0 <= k < open@.len() ==> open@[k] < classes@.len(),
    ensures
        final(out)@ == old(out)@ + render_tokens(opening(open@), texts(classes@), separator),
{
    let mut done: usize = 0;
    assert(out@ =~= old(out)@ + render_tokens(
        opening(open@.take(0)),
        texts(classes@),
        separator,
    ));
    while done < open.len()
        invariant
            done <= open@.len(),
            forall|k: int| 0 <= k < open@.len() ==> open@[k] < classes@.len(),
            out@ == old(out)@ + render_tokens(
                opening(open@.take(done as int)),
                texts(classes@),
                separator,
            ),
        decreases open@.len() - done,
    {
        let capture = open[done];
        push_open_tag(out, &classes[capture]);
        proof {
            let token = Token::Open(capture);
            assert(opening(open@.take(done + 1)) =~= opening(open@.take(done as int)) + seq![
                token,
            ]);
            lemma_render_tokens_concat(
                opening(open@.take(done as int)),
                seq![token],
                texts(classes@),
                separator,
            );
            lemma_render_one_token(token, texts(classes@), separator);
            assert(out@ =~= old(out)@ + render_tokens(
                opening(open@.take(done + 1)),
                texts(classes@),
                separator,
            ));
        }
        done += 1;
    }
    assert(open@.take(open@.len() as int) =~= open@);
}

/// Appends the tag of `event` and updates the stack of open regions.
fn push_event(out: &mut Vec<u8>, open: &mut Vec<usize>, event: HighlightEvent, classes: &[String])
    requires
        event matches HighlightEvent::Start { capture, .. } ==> capture < classes@.len(),
        event is End ==> old(open)@.len() > 0,
    ensures
        final(out)@ == old(out)@ + event_markup(event, texts(classes@)),
        final(open)@ == open_after(event, old(open)@),
{
    match event {
        HighlightEvent::Start { capture, .. } => {
            push_open_tag(out, &classes[capture]);
            open.push(capture);
        },
        HighlightEvent::End { .. } => {
            push_text(out, "</span>");
            open.pop();
        },
    }
}

/// Appends the markup of one source byte while the regions in `open` are open.
fn push_byte(out: &mut Vec<u8>, byte: u8, open: &Vec<usize>, classes: &[String], separator: bool)
    requires
        forall|k: int| 0 <= k < open@.len() ==> open@[k] < classes@.len(),
    ensures
        final(out)@ == old(out)@ + byte_markup(byte, open@, texts(classes@), separator),
{
    if byte == NEWLINE {
        push_closing(out, open.len(), Ghost(texts(classes@)), Ghost(separator));
        out.push(NEWLINE);
        push_text(out, "</span>");
        if separator {
            out.push(NEWLINE);
        }
        push_text(out, "<span class=line>");
        push_opening(out, open, classes, Ghost(separator));
        assert(out@ =~= old(out)@ + byte_markup(byte, open@, texts(classes@), separator));
    } else {
        push_escaped(out, byte);
    }
}

/// Renders `source` as an HTML fragment. Every region of `events` becomes a
/// `span` with the class attribute that `classes` holds for its capture index,
/// every line becomes a line-span in which all tags balance, and literal text
/// is escaped. A newline is the last byte of the line-span that it ends. With
/// `line_separator` one more newline stands between consecutive line-spans;
/// without it they follow one another directly.
///
/// The stream is checked first: the result is the fragment exactly when no
/// event is at fault, and otherwise the fault of the first faulty event.
pub fn render_html(
    lang: &str,
    source: &[u8],
    events: &[HighlightEvent],
    classes: &[String],
    line_separator: bool,
) -> (res: Result<Vec<u8>, RenderFailure>)
    ensures
        res is Ok <==> consistent(source@.len() as int, classes@.len() as int, events@),
        match res {
            Ok(html) => html@ == html_document(
                lang@,
                source@,
                events@,
                texts(classes@),
                line_separator,
            ),
            Err(failure) => first_fault(source@.len() as int, classes@.len() as int, events@)
                == Some(failure),
        },
{
    match check_events(source.len(), classes.len(), events) {
        Err(failure) => {
            return Err(failure);
        },
        Ok(_) => {},
    }
    let ghost table = texts(classes@);
    let mut out: Vec<u8> = Vec::new();
    push_text(&mut out, "<pre class=language-");
    push_text(&mut out, lang);
    push_text(&mut out, "><code>");
    push_text(&mut out, "<span class=line>");
    let ghost whole = out@ + render_tokens(body_tokens(source@, events@), table, line_separator);
    let mut open: Vec<usize> = Vec::new();
    let mut at: usize = 0;
    let mut next: usize = 0;
    proof {
        lemma_consistent_iff_no_fault(source@.len() as int, classes@.len() as int, events@);
        lemma_pending_at_start(source@, events@, table, line_separator);
        assert(out@ =~= shell_open(lang@) + line_open());
    }
    while at < source.len() || next < events.len()
        invariant
            at <= source@.len(),
            next <= events@.len(),
            table == texts(classes@),
            table.len() == classes@.len(),
            consistent(source@.len() as int, classes@.len() as int, events@),
            open@ == open_captures(events@.take(next as int)),
            forall|k: int| 0 <= k < open@.len() ==> open@[k] < classes@.len(),
            out@ + pending(source@, events@, at as int, next as int, open@, table, line_separator)
                == whole,
        decreases source@.len() - at + events@.len() - next,
    {
        if next < events.len() && events[next].position() <= at {
            proof {
                lemma_due_event(source@, events@, at as int, next as int, table, line_separator);
                lemma_written(
                    out@,
                    event_markup(events@[next as int], table),
                    pending(
                        source@,
                        events@,
                        at as int,
                        next + 1,
                        open_captures(events@.take(next + 1)),
                        table,
                        line_separator,
                    ),
                );
            }
            push_event(&mut out, &mut open, events[next], classes);
            next += 1;
        } else {
            proof {
                lemma_due_byte(
                    source@,
                    events@,
                    at as int,
                    next as int,
                    open@,
                    table,
                    line_separator,
                );
                lemma_written(
                    out@,
                    byte_markup(source@[at as int], open@, table, line_separator),
                    pending(source@, events@, at + 1, next as int, open@, table, line_separator),
                );
            }
            push_byte(&mut out, source[at], &open, classes, line_separator);
            at += 1;
        }
    }
    proof {
        lemma_pending_at_end(source@, events@, open@, table, line_separator);
    }
    push_closing(&mut out, open.len(), Ghost(table), Ghost(line_separator));
    push_text(&mut out, "</span>");
    push_text(&mut out, "</code></pre>");
    assert(out@ =~= html_document(lang@, source@, events@, table, line_separator));
    Ok(out)
}

} // verus!
