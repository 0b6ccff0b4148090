use cli_boids::boids::settings::BorderSettings;
use cli_boids::boids::simulation::{classify, NeighborKind};

#[test]
fn bounded_forces_away_from_all_borders() {
    let border = BorderSettings::Bounded;
    assert!(border.forces_horizontal());
    assert!(border.forces_vertical());
    assert!(!border.wraps_horizontal());
    assert!(!border.wraps_vertical());
}

#[test]
fn wrapping_wraps_around_all_borders() {
    let border = BorderSettings::Wrapping;
    assert!(!border.forces_horizontal());
    assert!(!border.forces_vertical());
    assert!(border.wraps_horizontal());
    assert!(border.wraps_vertical());
}

#[test]
fn bounded_vertical_wraps_left_and_right() {
    let border = BorderSettings::BoundedVertical;
    assert!(!border.forces_horizontal());
    assert!(border.forces_vertical());
    assert!(border.wraps_horizontal());
    assert!(!border.wraps_vertical());
}

#[test]
fn bounded_horizontal_wraps_top_and_bottom() {
    let border = BorderSettings::BoundedHorizontal;
    assert!(border.forces_horizontal());
    assert!(!border.forces_vertical());
    assert!(!border.wraps_horizontal());
    assert!(border.wraps_vertical());
}

#[test]
fn no_border_does_nothing() {
    let border = BorderSettings::NoBorder;
    assert!(!border.forces_horizontal());
    assert!(!border.forces_vertical());
    assert!(!border.wraps_horizontal());
    assert!(!border.wraps_vertical());
}

#[test]
fn no_border_both_forces_and_wraps() {
    for border in [
        BorderSettings::NoBorder,
        BorderSettings::Bounded,
        BorderSettings::BoundedVertical,
        BorderSettings::BoundedHorizontal,
        BorderSettings::Wrapping,
    ] {
        assert!(!(border.forces_horizontal() && border.wraps_horizontal()));
        assert!(!(border.forces_vertical() && border.wraps_vertical()));
        if border != BorderSettings::NoBorder {
            assert!(border.forces_horizontal() || border.wraps_horizontal());
            assert!(border.forces_vertical() || border.wraps_vertical());
        }
    }
}

#[test]
fn classify_puts_the_protected_range_first() {
    assert_eq!(classify(true, true, true), NeighborKind::Protected);
    assert_eq!(classify(true, true, false), NeighborKind::Protected);
    assert_eq!(classify(true, false, true), NeighborKind::Protected);
    assert_eq!(classify(true, false, false), NeighborKind::Protected);
    assert_eq!(classify(false, true, true), NeighborKind::Visible);
    assert_eq!(classify(false, true, false), NeighborKind::Ignored);
    assert_eq!(classify(false, false, true), NeighborKind::Ignored);
    assert_eq!(classify(false, false, false), NeighborKind::Ignored);
}
