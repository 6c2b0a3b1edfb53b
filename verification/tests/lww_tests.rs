use skuiz::lww::Lww;

fn fresh() -> Lww {
    Lww::new(7, 1)
}

#[test]
fn newer_versions_win_and_stale_ones_lose() {
    let mut lww = fresh();
    assert!(lww.accept(0, Some((5, 10))));
    assert!(!lww.accept(0, Some((5, 10))), "duplicate is not newer");
    assert!(!lww.accept(0, Some((4, 99))), "older seq loses");
    assert!(lww.accept(0, Some((5, 11))), "same seq, higher origin wins");
    assert!(!lww.accept(0, Some((5, 10))), "tie resolved, former loses now");
    assert!(lww.accept(0, Some((6, 1))));
}

#[test]
fn legacy_frames_apply_without_touching_versions() {
    let mut lww = fresh();
    assert!(lww.accept(0, None));
    assert!(lww.accept(0, None), "legacy always applies");
    assert_eq!(lww.known_version(0), None, "legacy leaves no mark");
    let mut lww = fresh();
    assert!(lww.accept(0, Some((5, 1))));
    assert!(lww.accept(0, None), "legacy still applies over a version");
    assert_eq!(
        lww.known_version(0),
        Some((5, 1)),
        "but the versioned record stays authoritative"
    );
    assert!(!lww.accept(0, Some((4, 9))), "and stale versions still lose");
}

#[test]
fn the_known_version_heals_what_a_legacy_frame_displaced() {
    let mut lww = fresh();
    assert!(lww.accept(0, Some((5, 1))));
    assert!(lww.accept(0, None));
    assert_eq!(lww.advertised_version(0), None, "its value is not in force");
    assert!(lww.accept(0, Some((5, 1))), "the known version brings it back");
    assert_eq!(lww.advertised_version(0), Some((5, 1)));
    assert!(!lww.accept(0, Some((5, 1))), "and is a duplicate again");
    // A frame that did not land displaces nothing.
    assert!(!lww.accept_with(0, None, || false));
    assert!(!lww.accept(0, Some((5, 1))));
    // What a load or the host rewrote is not brought back by old frames.
    assert!(lww.accept(0, None));
    lww.on_rewrite(0);
    assert!(!lww.accept(0, Some((5, 1))));
    assert!(lww.accept(0, None));
    lww.on_state_load();
    assert!(!lww.accept(0, Some((5, 1))));
}

#[test]
fn local_stamps_always_beat_what_we_just_saw() {
    let mut lww = fresh();
    assert!(lww.accept(0, Some((10, 1))));
    let (seq, origin) = lww.stamp(0);
    assert!(seq > 10, "stamp must advance past the learned clock");
    assert_eq!(origin, lww.origin());
    assert_eq!(lww.known_version(0), Some((seq, origin)));
    // And a peer holding our stamped version does not re-win it back.
    assert!(!lww.accept(0, Some((seq, origin))));
}

#[test]
fn unseen_params_have_no_version_to_answer_with() {
    let lww = fresh();
    assert_eq!(lww.known_version(3), None);
}

#[test]
fn accept_with_records_only_when_apply_succeeds() {
    let mut lww = fresh();
    // Apply fails: no mark, so the same version can be re-delivered.
    assert!(!lww.accept_with(0, Some((5, 1)), || false));
    assert_eq!(lww.known_version(0), None);
    assert!(lww.accept_with(0, Some((5, 1)), || true), "re-delivery wins");
    assert_eq!(lww.known_version(0), Some((5, 1)));
    // Stale frames never even run apply.
    assert!(!lww.accept_with(0, Some((4, 9)), || panic!("stale frame applied")));
    // Legacy frames always apply, fail or not, and never record.
    assert!(lww.accept_with(0, None, || true));
    assert!(!lww.accept_with(0, None, || false));
    assert_eq!(lww.known_version(0), Some((5, 1)));
}

#[test]
fn stamp_with_claims_nothing_when_apply_fails() {
    let mut lww = fresh();
    assert_eq!(lww.stamp_with(0, || false), None);
    assert_eq!(lww.known_version(0), None);
    let v = lww.stamp_with(0, || true).expect("apply succeeded");
    assert_eq!(lww.known_version(0), Some(v));
    // A failed stamp still must not burn a winning version: the next
    // successful stamp is simply newer.
    assert_eq!(lww.stamp_with(0, || false), None);
    let v2 = lww.stamp_with(0, || true).unwrap();
    assert!(v2 > v);
}

#[test]
fn state_load_stales_advertisement_but_keeps_memory() {
    let mut lww = fresh();
    let v = lww.stamp_with(0, || true).unwrap();
    assert_eq!(lww.advertised_version(0), Some(v));

    lww.on_state_load();
    assert_eq!(lww.advertised_version(0), None, "a loaded value is not advertised");
    assert_eq!(lww.known_version(0), Some(v), "win/lose memory kept");
    assert!(
        !lww.accept_with(0, Some(v), || panic!("stale frame applied")),
        "the pre-load version still loses"
    );

    // A newer bus frame wins and re-freshes the advertisement.
    let newer = (v.0 + 1, v.1);
    assert!(lww.accept_with(0, Some(newer), || true));
    assert_eq!(lww.advertised_version(0), Some(newer));

    // So does a fresh local edit.
    lww.on_state_load();
    let v2 = lww.stamp_with(0, || true).unwrap();
    assert_eq!(lww.advertised_version(0), Some(v2));

    // A never-edited parameter has nothing to advertise either way.
    assert_eq!(lww.advertised_version(3), None);
}

#[test]
fn origins_mix_process_and_serial() {
    assert_eq!(Lww::new(0x1234, 5).origin(), 0x0000_1234_0000_0005);
    assert_ne!(Lww::new(1, 2).origin(), Lww::new(2, 1).origin());
}

#[test]
fn trackers_agree_after_the_same_frames_in_any_order() {
    let frames = [(0u32, (3u64, 9u64)), (0, (5, 1)), (0, (5, 2)), (1, (1, 1)), (0, (4, 7))];
    let mut a = Lww::new(1, 1);
    let mut b = Lww::new(1, 2);
    for &(id, v) in frames.iter() {
        a.accept(id, Some(v));
    }
    for &(id, v) in frames.iter().rev() {
        b.accept(id, Some(v));
        b.accept(id, Some(v));
    }
    assert_eq!(a.known_version(0), Some((5, 2)));
    assert_eq!(b.known_version(0), Some((5, 2)));
    assert_eq!(a.known_version(1), b.known_version(1));
}
