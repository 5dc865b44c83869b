use highlight_html::{
    events_from_tokenizer, names_to_classes, render_tokenized, HighlightEvent, TokenizerEvent,
};

fn source(start: usize, end: usize) -> TokenizerEvent {
    TokenizerEvent::Source { start, end }
}

#[test]
fn boundaries_are_placed_where_the_text_before_them_ends() {
    let raw = [
        TokenizerEvent::HighlightStart(2),
        source(0, 2),
        TokenizerEvent::HighlightEnd,
        source(2, 3),
        TokenizerEvent::HighlightStart(0),
        TokenizerEvent::HighlightStart(1),
        source(3, 7),
        TokenizerEvent::HighlightEnd,
        TokenizerEvent::HighlightEnd,
    ];
    assert_eq!(
        events_from_tokenizer(&raw, 7),
        Some(vec![
            HighlightEvent::Start { offset: 0, capture: 2 },
            HighlightEvent::End { offset: 2 },
            HighlightEvent::Start { offset: 3, capture: 0 },
            HighlightEvent::Start { offset: 3, capture: 1 },
            HighlightEvent::End { offset: 7 },
            HighlightEvent::End { offset: 7 },
        ])
    );
}

#[test]
fn no_events_fit_an_empty_source_only() {
    assert_eq!(events_from_tokenizer(&[], 0), Some(vec![]));
    assert_eq!(events_from_tokenizer(&[], 1), None);
}

#[test]
fn empty_source_range_is_accepted() {
    assert_eq!(events_from_tokenizer(&[source(0, 0), source(0, 2)], 2), Some(vec![]));
}

#[test]
fn source_ranges_with_a_gap_are_refused() {
    assert_eq!(events_from_tokenizer(&[source(0, 1), source(2, 3)], 3), None);
    assert_eq!(events_from_tokenizer(&[source(1, 3)], 3), None);
}

#[test]
fn source_ranges_that_overlap_are_refused() {
    assert_eq!(events_from_tokenizer(&[source(0, 2), source(1, 3)], 3), None);
}

#[test]
fn source_range_running_backwards_is_refused() {
    assert_eq!(events_from_tokenizer(&[source(0, 2), source(2, 1)], 2), None);
}

#[test]
fn source_ranges_beyond_the_source_are_refused() {
    assert_eq!(events_from_tokenizer(&[source(0, 4)], 3), None);
}

#[test]
fn source_ranges_that_stop_early_are_refused() {
    assert_eq!(events_from_tokenizer(&[source(0, 2)], 3), None);
}

#[test]
fn tokenized_source_renders_as_text() {
    let classes = names_to_classes(&["keyword", "string"]);
    let raw = [
        TokenizerEvent::HighlightStart(0),
        source(0, 3),
        TokenizerEvent::HighlightEnd,
        source(3, 9),
        TokenizerEvent::HighlightStart(1),
        source(9, 14),
        TokenizerEvent::HighlightEnd,
        source(14, 15),
    ];
    assert_eq!(
        render_tokenized("rs", "let \u{e9} = \"a&b\";".as_bytes(), &raw, &classes, false),
        Some(
            "<pre class=language-rs><code><span class=line><span class=keyword>let</span> \u{e9} = \
             <span class=string>&quot;a&amp;b&quot;</span>;</span></code></pre>"
                .to_string()
        )
    );
}

#[test]
fn tokenized_source_with_broken_ranges_renders_nothing() {
    let classes = names_to_classes(&["keyword"]);
    assert_eq!(render_tokenized("rs", b"let", &[source(0, 2)], &classes, false), None);
}

#[test]
fn tokenized_source_with_a_faulty_boundary_renders_nothing() {
    let classes = names_to_classes(&["keyword"]);
    let unknown = [TokenizerEvent::HighlightStart(1), source(0, 3), TokenizerEvent::HighlightEnd];
    assert_eq!(render_tokenized("rs", b"let", &unknown, &classes, false), None);
    let unbalanced = [source(0, 3), TokenizerEvent::HighlightEnd];
    assert_eq!(render_tokenized("rs", b"let", &unbalanced, &classes, false), None);
}

#[test]
fn source_that_is_not_utf8_renders_nothing() {
    let classes = names_to_classes(&[]);
    assert_eq!(render_tokenized("rs", &[b'a', 0xff], &[source(0, 2)], &classes, false), None);
    assert_eq!(render_tokenized("rs", &[0xc3], &[source(0, 1)], &classes, false), None);
    assert_eq!(
        render_tokenized("rs", &[0xc3, 0xa9], &[source(0, 2)], &classes, false),
        Some("<pre class=language-rs><code><span class=line>\u{e9}</span></code></pre>".to_string())
    );
}

#[test]
fn region_that_splits_a_character_renders_nothing() {
    let classes = names_to_classes(&["string"]);
    let raw = [
        source(0, 1),
        TokenizerEvent::HighlightStart(0),
        source(1, 2),
        TokenizerEvent::HighlightEnd,
    ];
    assert_eq!(render_tokenized("rs", &[0xc3, 0xa9], &raw, &classes, false), None);
}
