use highlight_html::events::check_events;
use highlight_html::{HighlightEvent, RenderFailure};

#[test]
fn position_is_the_offset_of_either_kind() {
    assert_eq!(HighlightEvent::Start { offset: 7, capture: 3 }.position(), 7);
    assert_eq!(HighlightEvent::End { offset: 9 }.position(), 9);
}

#[test]
fn empty_stream_is_consistent() {
    assert_eq!(check_events(0, 0, &[]), Ok(()));
}

#[test]
fn balanced_stream_within_bounds_is_consistent() {
    let events = [
        HighlightEvent::Start { offset: 0, capture: 1 },
        HighlightEvent::Start { offset: 0, capture: 0 },
        HighlightEvent::End { offset: 4 },
        HighlightEvent::End { offset: 4 },
    ];
    assert_eq!(check_events(4, 2, &events), Ok(()));
}

#[test]
fn unclosed_region_is_consistent() {
    let events = [HighlightEvent::Start { offset: 2, capture: 0 }];
    assert_eq!(check_events(2, 1, &events), Ok(()));
}

#[test]
fn each_fault_is_reported() {
    assert_eq!(
        check_events(2, 1, &[HighlightEvent::Start { offset: 3, capture: 0 }]),
        Err(RenderFailure::OffsetOutOfOrder)
    );
    assert_eq!(
        check_events(
            9,
            1,
            &[
                HighlightEvent::Start { offset: 5, capture: 0 },
                HighlightEvent::End { offset: 4 },
            ]
        ),
        Err(RenderFailure::OffsetOutOfOrder)
    );
    assert_eq!(
        check_events(2, 1, &[HighlightEvent::Start { offset: 0, capture: 1 }]),
        Err(RenderFailure::CaptureOutOfRange)
    );
    assert_eq!(
        check_events(2, 1, &[HighlightEvent::End { offset: 0 }]),
        Err(RenderFailure::UnbalancedEnd)
    );
}

#[test]
fn offset_is_checked_before_the_kind_of_event() {
    assert_eq!(
        check_events(2, 1, &[HighlightEvent::End { offset: 3 }]),
        Err(RenderFailure::OffsetOutOfOrder)
    );
    assert_eq!(
        check_events(2, 1, &[HighlightEvent::Start { offset: 3, capture: 5 }]),
        Err(RenderFailure::OffsetOutOfOrder)
    );
}
