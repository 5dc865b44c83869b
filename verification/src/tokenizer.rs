//! The tokenizer: tree-sitter's highlighter, which turns source bytes into a
//! stream of events. Nothing is proved of it; what it hands out is carried in
//! plain values and checked by the code that reads it.

use vstd::prelude::*;
use tree_sitter_highlight::HighlightEvent as RawEvent;
use tree_sitter_highlight::{HighlightConfiguration, Highlighter};
use crate::classes::name_texts;

verus! {

/// One event as the tokenizer gives it: a range of source bytes to emit, the
/// start of a region with a capture index, or the end of the innermost region.
#[derive(Clone, Copy, Debug, PartialEq, Eq, Structural)]
pub enum TokenizerEvent {
    /// The bytes from `start` up to `end` come next.
    Source { start: usize, end: usize },
    /// A region with this capture index begins here.
    HighlightStart(usize),
    /// The innermost open region ends here.
    HighlightEnd,
}

/// `tree_sitter_highlight::HighlightConfiguration`: a grammar with its
/// queries. Its contents are not visible to the verifier.
#[verifier::external_type_specification]
#[verifier::external_body]
pub struct ExHighlightConfiguration(HighlightConfiguration);

/// The configuration that `HighlightConfiguration::configure` makes of
/// `config` when it is given the role names `names`.
pub uninterp spec fn configured(
    config: HighlightConfiguration,
    names: Seq<Seq<char>>,
) -> HighlightConfiguration;

/// What `Highlighter::highlight` gives for `source` under `config`, with a
/// new highlighter, no cancellation flag and no embedded languages: the
/// events in order, or `None` where it reports an error.
pub uninterp spec fn tokenized(config: HighlightConfiguration, source: Seq<u8>) -> Option<
    Seq<TokenizerEvent>,
>;

/// Calls `HighlightConfiguration::configure`, which sets the role names that
/// the configuration recognizes. What it computes from the configuration and
/// the names is not stated, only named: it depends on nothing else.
#[verifier::external_body]
pub(crate) fn configure(config: &mut HighlightConfiguration, names: &[&str])
    ensures
        *final(config) == configured(*old(config), name_texts(names@)),
{
    config.configure(names);
}

/// The answer to every request for the configuration of an embedded language:
/// there is none, so embedded code is highlighted as its host sees it.
pub(crate) fn no_injection<'a>(_language: &str) -> (config: Option<&'a HighlightConfiguration>)
    ensures
        config is None,
{
    None
}

/// Makes a `Highlighter`, calls `Highlighter::highlight` on `source` and
/// walks the iterator that it returns, handing each event out as a plain
/// value. The result is `None` when the call or any step of the iterator
/// reports an error. What the events are is not stated, only named: they
/// depend on the configuration and the source alone.
#[verifier::external_body]
pub(crate) fn tokenize(config: &HighlightConfiguration, source: &[u8]) -> (raw: Option<
    Vec<TokenizerEvent>,
>)
    ensures
        match raw {
            Some(events) => tokenized(*config, source@) == Some(events@),
            None => tokenized(*config, source@) is None,
        },
{
    let mut highlighter = Highlighter::new();
    let no_embedded = |language: &str| no_injection(language);
    let stream = highlighter.highlight(config, source, None, no_embedded).ok()?;
    let mut raw = Vec::new();
    for event in stream {
        raw.push(match event.ok()? {
            RawEvent::Source { start, end } => TokenizerEvent::Source { start, end },
            RawEvent::HighlightStart(highlight) => TokenizerEvent::HighlightStart(highlight.0),
            RawEvent::HighlightEnd => TokenizerEvent::HighlightEnd,
        });
    }
    Some(raw)
}

} // verus!
