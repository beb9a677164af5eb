use wpd::error::Error;
use wpd::image::FILE_PADDING;
use wpd::input::{compact, grow_to, Window, COMPACT_THRESHOLD, INITIAL_CAPACITY, MAX_BUFFERED};

#[test]
fn a_buffer_that_already_fits_does_not_grow() {
    assert_eq!(grow_to(1 << 20, 100, 100), Ok(None));
}

#[test]
fn growth_doubles_from_the_initial_capacity() {
    assert_eq!(grow_to(0, 0, 1), Ok(Some(INITIAL_CAPACITY)));
    assert_eq!(
        grow_to(0, 0, INITIAL_CAPACITY),
        Ok(Some(INITIAL_CAPACITY * 2))
    );
    assert_eq!(
        grow_to(INITIAL_CAPACITY, INITIAL_CAPACITY, 1),
        Ok(Some(INITIAL_CAPACITY * 2))
    );
}

/// Appending one byte at a time must not be quadratic: every growth at
/// least doubles, so the number of them is logarithmic in the total.
#[test]
fn appending_a_byte_at_a_time_grows_a_logarithmic_number_of_times() {
    let mut capacity = 0;
    let mut grows = 0;

    for buffered in 0..(1 << 20) {
        if let Ok(Some(next)) = grow_to(capacity, buffered, 1) {
            assert!(next >= capacity * 2 || capacity == 0);
            capacity = next;
            grows += 1;
        }
    }
    assert!(grows < 8, "grew {grows} times");
}

#[test]
fn a_stream_past_what_an_int_can_describe_is_refused() {
    assert_eq!(grow_to(0, 0, MAX_BUFFERED + 1), Err(Error::TooLarge));
    assert_eq!(grow_to(0, MAX_BUFFERED, 1), Err(Error::TooLarge));
    assert!(grow_to(0, 0, MAX_BUFFERED).is_ok());
}

#[test]
fn compaction_below_the_threshold_is_not_worth_the_move() {
    let w = Window {
        size: 1 << 20,
        discarded: 0,
    };

    assert_eq!(compact(w, COMPACT_THRESHOLD - 1), None);
    assert_eq!(
        compact(w, COMPACT_THRESHOLD),
        Some((1 << 20) - COMPACT_THRESHOLD + FILE_PADDING)
    );
}

/// The decoder asks to keep the chunk it is working on, which an earlier
/// compaction may already have stopped short of.
#[test]
fn a_keep_behind_what_was_already_dropped_is_declined_not_wrapped() {
    let w = Window {
        size: 1 << 20,
        discarded: 1 << 19,
    };

    assert_eq!(compact(w, 0), None);
    assert_eq!(compact(w, (1 << 19) - 1), None);
}

#[test]
fn an_offset_outside_the_window_has_no_index() {
    let w = Window {
        size: 100,
        discarded: 40,
    };

    assert_eq!(w.index_of(40), Some(0));
    assert_eq!(w.index_of(100), Some(60));
    assert_eq!(w.index_of(39), None);
    assert_eq!(w.index_of(101), None);
    assert_eq!(w.buffered(), 60);
}
