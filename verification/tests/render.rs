use highlight_html::{names_to_classes, render_html, HighlightEvent, RenderFailure};

fn start(offset: usize, capture: usize) -> HighlightEvent {
    HighlightEvent::Start { offset, capture }
}

fn end(offset: usize) -> HighlightEvent {
    HighlightEvent::End { offset }
}

fn html(source: &str, events: &[HighlightEvent], names: &[&str], separator: bool) -> String {
    let classes = names_to_classes(names);
    let bytes = render_html("x", source.as_bytes(), events, &classes, separator).unwrap();
    String::from_utf8(bytes).unwrap()
}

fn failure(source: &str, events: &[HighlightEvent], names: &[&str]) -> RenderFailure {
    let classes = names_to_classes(names);
    render_html("x", source.as_bytes(), events, &classes, false).unwrap_err()
}

#[test]
fn one_region_on_one_line() {
    assert_eq!(
        html("ab", &[start(0, 0), end(2)], &["string"], false),
        "<pre class=language-x><code><span class=line><span class=string>ab</span></span></code></pre>"
    );
}

#[test]
fn text_without_regions_is_escaped() {
    assert_eq!(
        html("a<b", &[], &[], false),
        "<pre class=language-x><code><span class=line>a&lt;b</span></code></pre>"
    );
}

#[test]
fn region_over_two_lines_closes_and_reopens() {
    assert_eq!(
        html("x\ny", &[start(0, 0), end(3)], &["comment"], false),
        "<pre class=language-x><code><span class=line><span class=comment>x</span>\n</span>\
         <span class=line><span class=comment>y</span></span></code></pre>"
    );
}

#[test]
fn line_separator_stands_between_line_spans() {
    assert_eq!(
        html("x\ny", &[start(0, 0), end(3)], &["comment"], true),
        "<pre class=language-x><code><span class=line><span class=comment>x</span>\n</span>\n\
         <span class=line><span class=comment>y</span></span></code></pre>"
    );
}

#[test]
fn line_separator_leaves_a_single_line_alone() {
    assert_eq!(
        html("ab", &[start(0, 0), end(2)], &["string"], true),
        html("ab", &[start(0, 0), end(2)], &["string"], false)
    );
}

#[test]
fn empty_source_is_one_empty_line() {
    assert_eq!(
        html("", &[], &[], false),
        "<pre class=language-x><code><span class=line></span></code></pre>"
    );
    assert_eq!(
        html("", &[], &[], true),
        "<pre class=language-x><code><span class=line></span></code></pre>"
    );
}

#[test]
fn trailing_newline_opens_a_last_empty_line() {
    assert_eq!(
        html("x\n", &[], &[], false),
        "<pre class=language-x><code><span class=line>x\n</span><span class=line></span></code></pre>"
    );
}

#[test]
fn only_newlines_give_lines_of_one_newline() {
    assert_eq!(
        html("\n\n", &[], &[], true),
        "<pre class=language-x><code><span class=line>\n</span>\n<span class=line>\n</span>\n\
         <span class=line></span></code></pre>"
    );
}

#[test]
fn the_four_special_bytes_become_entities() {
    assert_eq!(
        html("&<>\"", &[], &[], false),
        "<pre class=language-x><code><span class=line>&amp;&lt;&gt;&quot;</span></code></pre>"
    );
}

#[test]
fn other_bytes_pass_through() {
    assert_eq!(
        html("it's \u{e9}\t\r;#", &[], &[], false),
        "<pre class=language-x><code><span class=line>it's \u{e9}\t\r;#</span></code></pre>"
    );
}

#[test]
fn an_entity_in_the_source_is_escaped_again() {
    assert_eq!(
        html("&amp;", &[], &[], false),
        "<pre class=language-x><code><span class=line>&amp;amp;</span></code></pre>"
    );
}

#[test]
fn nested_regions_close_innermost_first() {
    assert_eq!(
        html(
            "f(x)",
            &[start(0, 0), start(1, 1), end(2), start(3, 1), end(4), end(4)],
            &["function", "punctuation.bracket"],
            false
        ),
        "<pre class=language-x><code><span class=line><span class=function>f\
         <span class=punctuation.bracket>(</span>x\
         <span class=punctuation.bracket>)</span></span></span></code></pre>"
    );
}

#[test]
fn nested_regions_reopen_in_the_order_they_opened() {
    assert_eq!(
        html(
            "a\nb",
            &[start(0, 0), start(0, 1), end(3), end(3)],
            &["outer", "inner"],
            false
        ),
        "<pre class=language-x><code><span class=line><span class=outer><span class=inner>a\
         </span></span>\n</span><span class=line><span class=outer><span class=inner>b\
         </span></span></span></code></pre>"
    );
}

#[test]
fn region_ending_at_a_newline_is_not_reopened() {
    assert_eq!(
        html("a\nb", &[start(0, 0), end(1)], &["string"], false),
        "<pre class=language-x><code><span class=line><span class=string>a</span>\n</span>\
         <span class=line>b</span></code></pre>"
    );
}

#[test]
fn region_starting_after_a_newline_opens_on_the_next_line() {
    assert_eq!(
        html("a\nb", &[start(2, 0), end(3)], &["string"], false),
        "<pre class=language-x><code><span class=line>a\n</span>\
         <span class=line><span class=string>b</span></span></code></pre>"
    );
}

#[test]
fn region_left_open_is_closed_at_the_end() {
    assert_eq!(
        html("ab", &[start(1, 0)], &["string"], false),
        "<pre class=language-x><code><span class=line>a<span class=string>b</span></span></code></pre>"
    );
}

#[test]
fn region_holding_only_a_newline_closes_before_it() {
    assert_eq!(
        html("a\nb", &[start(1, 0), end(2)], &["string"], false),
        "<pre class=language-x><code><span class=line>a<span class=string></span>\n</span>\
         <span class=line><span class=string></span>b</span></code></pre>"
    );
}

#[test]
fn empty_region_is_an_empty_span() {
    assert_eq!(
        html("ab", &[start(1, 0), end(1)], &["string"], false),
        "<pre class=language-x><code><span class=line>a<span class=string></span>b</span></code></pre>"
    );
}

#[test]
fn language_identifier_is_copied_verbatim() {
    let classes = names_to_classes(&[]);
    let bytes = render_html("rust-2021", b"", &[], &classes, false).unwrap();
    assert_eq!(
        String::from_utf8(bytes).unwrap(),
        "<pre class=language-rust-2021><code><span class=line></span></code></pre>"
    );
}

#[test]
fn bytes_that_are_not_text_are_kept() {
    let classes = names_to_classes(&["string"]);
    let bytes =
        render_html("x", &[0xff, b'<', 0x80], &[start(0, 0), end(3)], &classes, false).unwrap();
    let mut expected = b"<pre class=language-x><code><span class=line><span class=string>".to_vec();
    expected.push(0xff);
    expected.extend_from_slice(b"&lt;");
    expected.push(0x80);
    expected.extend_from_slice(b"</span></span></code></pre>");
    assert_eq!(bytes, expected);
}

#[test]
fn capture_outside_the_class_table_fails() {
    assert_eq!(
        failure("ab", &[start(0, 1), end(2)], &["string"]),
        RenderFailure::CaptureOutOfRange
    );
    assert_eq!(failure("ab", &[start(0, 0)], &[]), RenderFailure::CaptureOutOfRange);
}

#[test]
fn end_without_an_open_region_fails() {
    assert_eq!(failure("ab", &[end(1)], &["string"]), RenderFailure::UnbalancedEnd);
    assert_eq!(
        failure("ab", &[start(0, 0), end(1), end(2)], &["string"]),
        RenderFailure::UnbalancedEnd
    );
}

#[test]
fn event_beyond_the_source_fails() {
    assert_eq!(
        failure("ab", &[start(0, 0), end(3)], &["string"]),
        RenderFailure::OffsetOutOfOrder
    );
}

#[test]
fn event_before_its_predecessor_fails() {
    assert_eq!(
        failure("ab", &[start(1, 0), end(0)], &["string"]),
        RenderFailure::OffsetOutOfOrder
    );
}

#[test]
fn the_first_faulty_event_decides_the_failure() {
    assert_eq!(
        failure("ab", &[end(0), start(0, 9)], &["string"]),
        RenderFailure::UnbalancedEnd
    );
    assert_eq!(
        failure("ab", &[start(0, 9), end(5)], &["string"]),
        RenderFailure::CaptureOutOfRange
    );
    assert_eq!(
        failure("ab", &[start(5, 9)], &["string"]),
        RenderFailure::OffsetOutOfOrder
    );
}

#[test]
fn rendering_twice_gives_the_same_bytes() {
    let classes = names_to_classes(&["comment", "string"]);
    let events = [start(0, 0), start(2, 1), end(5), end(9)];
    let first = render_html("x", b"a \"b\"\n<c>", &events, &classes, true);
    let second = render_html("x", b"a \"b\"\n<c>", &events, &classes, true);
    assert!(first.is_ok());
    assert_eq!(first, second);
}
