use redshift::watch::{RulesWatch, CHECK_EVERY};

#[test]
fn it_looks_only_every_so_many_frames() {
    let mut watch = RulesWatch::new(Some(5));
    for _ in 0..CHECK_EVERY {
        assert!(!watch.look_due());
    }
    assert!(watch.look_due());
    assert!(!watch.look_due());
}

#[test]
fn a_change_in_either_direction_is_reported_once() {
    let mut watch = RulesWatch::new(Some(5));
    assert!(!watch.changed(Some(5)));
    assert!(watch.changed(Some(9)));
    assert!(!watch.changed(Some(9)));
    // A deleted file can make the newest time go backwards.
    assert!(watch.changed(Some(7)));
    assert!(watch.changed(None));
    assert!(!watch.changed(None));
}
