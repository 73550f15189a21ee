use galaxy_systrkr::settings::{
    gpu_choice_index, history_choice_index, history_option, refresh_choice_index, refresh_option,
};
use galaxy_systrkr::widgets::sparkline::Scale;

#[test]
fn refresh_choices() {
    assert_eq!(refresh_choice_index(2000), 2);
    assert_eq!(refresh_choice_index(750), 0);
    assert_eq!(refresh_option(3), 5000);
}

#[test]
fn history_choices() {
    assert_eq!(history_choice_index(120), 3);
    assert_eq!(history_choice_index(45), 1);
    assert_eq!(history_option(0), 15);
}

#[test]
fn gpu_choice_is_clamped() {
    assert_eq!(gpu_choice_index(5, 2), 1);
    assert_eq!(gpu_choice_index(1, 3), 1);
    assert_eq!(gpu_choice_index(4, 0), 0);
}

#[test]
fn sparkline_scales_are_distinct() {
    assert!(Scale::Percent != Scale::AutoMax);
}
