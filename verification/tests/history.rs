use ntrancerator::render::history::{HistoryCursor, BELOW_ONE};

fn offset(c: &HistoryCursor) -> f32 {
    f32::from_bits(c.uv_offset().bits)
}

#[test]
fn advance_wraps_around() {
    let mut c = HistoryCursor::new(4);
    assert_eq!(c.advance(), 0);
    assert_eq!(c.advance(), 1);
    assert_eq!(c.advance(), 2);
    assert_eq!(c.advance(), 3);
    // Wraps back to the start without overflow.
    assert_eq!(c.advance(), 0);
    assert_eq!(c.position(), 1);
}

#[test]
fn uv_offset_tracks_cursor() {
    let mut c = HistoryCursor::new(8);
    assert_eq!(offset(&c), 0.0);
    c.advance();
    assert_eq!(offset(&c), 1.0 / 8.0);
}

#[test]
fn width_one_always_writes_column_zero() {
    let mut c = HistoryCursor::new(1);
    for _ in 0..5 {
        assert_eq!(c.advance(), 0);
    }
}

#[test]
fn offsets_stay_below_one() {
    let mut c = HistoryCursor::new(2048);
    for x in 0..5000u32 {
        assert_eq!(offset(&c), (x % 2048) as f32 / 2048.0);
        assert!((0.0..1.0).contains(&offset(&c)));
        c.advance();
    }
}

#[test]
fn a_full_turn_writes_every_column_once() {
    let mut c = HistoryCursor::new(7);
    c.advance_by(3);
    let mut seen = c.advance_by(7);
    assert_eq!(c.position(), 3);
    assert_eq!(seen, vec![3, 4, 5, 6, 0, 1, 2]);
    seen.sort();
    assert_eq!(seen, vec![0, 1, 2, 3, 4, 5, 6]);
    assert_eq!(c.width(), 7);
}

#[test]
fn newest_column_is_shown_at_the_right_edge() {
    let width = 5u32;
    let mut c = HistoryCursor::new(width);
    for _ in 0..13 {
        let written = c.advance();
        // Reading from the cursor on, the last column is the one just written.
        assert_eq!((c.position() + width - 1) % width, written);
    }
}

#[test]
fn the_widest_history_wraps_too() {
    let mut c = HistoryCursor::new(u32::MAX);
    assert_eq!(c.advance_by(3), vec![0, 1, 2]);
    assert_eq!(c.position(), 3);
}

#[test]
fn offsets_of_wide_histories_stay_below_one() {
    // The last column of this width is as near to the width as it gets.
    let width = 0x100_0001u32;
    let mut c = HistoryCursor::new(width);
    for _ in 0..width - 1 {
        c.advance();
    }
    assert_eq!(c.position(), width - 1);
    assert_eq!(c.uv_offset().bits, 0x3f7f_ffff);
    assert_eq!(BELOW_ONE, 0x3f7f_ffff);
    assert!((0.0..1.0).contains(&offset(&c)));
    c.advance();
    assert_eq!(offset(&c), 0.0);
}
