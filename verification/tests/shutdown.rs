use vitui_engine::shutdown::{disarmed, is_armed, Site, SiteId};

#[test]
fn a_restoration_that_has_happened_never_happens_again() {
    let mut site = Site::new(true, false);
    assert!(site.restore(false));
    for _ in 0..8 {
        assert!(!site.restore(false));
    }
    assert!(site.is_restored());
}

#[test]
fn every_tracking_mode_goes_off_when_the_session_asked_for_a_mouse() {
    let mut site = Site::new(true, false);
    site.mouse_may_be_on(true);
    assert!(site.restore(false));
    assert!(site.mouse_is_on(), "the restoration resets tracking the session raised");
}

#[test]
fn a_session_that_never_asked_for_a_mouse_resets_no_tracking_mode() {
    let mut site = Site::new(true, false);
    site.mouse_may_be_on(false);
    assert!(site.restore(false));
    assert!(!site.mouse_is_on());
}

#[test]
fn a_panic_over_a_caller_supplied_sink_leaves_the_drop_still_owing_it() {
    let mut site = Site::new(false, true);
    assert!(!site.restore(false), "there was nowhere to write");
    assert!(!site.is_restored(), "and so nothing was owed less");
    assert!(site.restore(true));
    assert!(site.is_restored());
}

#[test]
fn disarming_an_old_site_does_not_unarm_the_current_one() {
    let older = SiteId { id: 1 };
    let newer = SiteId { id: 2 };
    assert!(!is_armed(None, older), "nothing is armed");
    assert!(!is_armed(Some(newer), older), "the slot holds the newer session");
    assert!(is_armed(Some(newer), newer));
    assert_eq!(disarmed(Some(newer), older), Some(newer));
    assert_eq!(disarmed(Some(newer), newer), None);
}

#[test]
fn lowering_the_mouse_never_takes_the_reset_back() {
    let mut site = Site::new(true, true);
    site.mouse_may_be_on(false);
    assert!(site.mouse_is_on());
}
