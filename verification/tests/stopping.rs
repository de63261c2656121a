//! The caps that stop a run.

use wind_tunnel::stopping::{caps, DEFAULT_MAX_STEPS};

#[test]
fn a_default_cap_never_constrains_a_requested_one() {
    // `--max-steps 50` alone.
    assert_eq!(caps(Some(50), None::<f64>), (50, None));

    // The case this rule exists for: without it, `--max-time 60` stopped after 600
    // steps, which are not 60 seconds.
    assert_eq!(caps(None, Some(60.0)), (usize::MAX, Some(60.0)));

    // Both caps given.
    assert_eq!(caps(Some(50), Some(60.0)), (50, Some(60.0)));

    // No cap given at all.
    assert_eq!(caps(None, None::<f64>), (DEFAULT_MAX_STEPS, None));
}

#[test]
fn the_default_is_six_hundred_steps() {
    assert_eq!(DEFAULT_MAX_STEPS, 600);
    assert_eq!(caps(None::<usize>, None::<u8>).0, 600);
}
