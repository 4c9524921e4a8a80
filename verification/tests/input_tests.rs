use agent_r::input::{macro_key_step, next_frame};

#[test]
fn secret_key_pushes_once_per_press_after_the_debounce() {
    assert_eq!(macro_key_step(false, true, None), (true, true));
    assert_eq!(macro_key_step(true, true, None), (true, false));
    assert_eq!(macro_key_step(false, true, Some(219_999_999)), (true, false));
    assert_eq!(macro_key_step(false, true, Some(220_000_000)), (true, true));
    assert_eq!(macro_key_step(true, false, Some(5)), (false, false));
}

#[test]
fn frames_advance_and_wrap_when_due() {
    assert_eq!(next_frame(0, 3, true), Some(1));
    assert_eq!(next_frame(2, 3, true), Some(0));
    assert_eq!(next_frame(1, 3, false), None);
    assert_eq!(next_frame(0, 1, true), None);
    assert_eq!(next_frame(0, 0, true), None);
}
