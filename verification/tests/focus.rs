use greenfield_engine::focus::ViewFocus;

#[test]
fn focus_starts_on_earth_and_cycles_through_the_moons() {
    // Sun, Earth, Moon A, Moon B.
    let mut v = ViewFocus::new(4);
    assert_eq!(v.focus(), 1);
    assert_eq!(v.focus_label(), "Earth");
    v.cycle_focus();
    assert_eq!(v.focus(), 2);
    assert_eq!(v.focus_label(), "Moon A");
    v.cycle_focus();
    assert_eq!(v.focus(), 3);
    assert_eq!(v.focus_label(), "Moon B");
    v.cycle_focus();
    assert_eq!(v.focus(), 1);
}

#[test]
fn single_moon_scene_labels_plain_moon() {
    let mut v = ViewFocus::new(3);
    v.focus_moon();
    assert_eq!(v.focus(), 2);
    assert_eq!(v.focus_label(), "Moon");
    v.focus_earth();
    assert_eq!(v.focus_label(), "Earth");
}

#[test]
fn focus_moon_without_a_moon_keeps_the_view() {
    let mut v = ViewFocus::new(2);
    v.focus_moon();
    assert_eq!(v.focus(), 1);
    v.cycle_focus();
    assert_eq!(v.focus(), 1);
}

#[test]
fn a_full_round_of_cycling_returns_to_the_start() {
    for n in 2..9usize {
        for start in 1..n {
            let mut v = ViewFocus::new(n);
            while v.focus() != start {
                v.cycle_focus();
            }
            let mut seen = vec![false; n];
            for _ in 0..n - 1 {
                seen[v.focus()] = true;
                v.cycle_focus();
            }
            assert_eq!(v.focus(), start);
            assert!(seen[1..].iter().all(|&s| s), "every non-Sun body visited");
        }
    }
}

#[test]
fn the_scene_can_shrink_under_the_focus() {
    // A two-moon scene focused on Moon B becomes the birth scene (one impactor): the focus is kept and
    // the next cycle wraps to the Earth.
    let mut v = ViewFocus::new(4);
    v.cycle_focus();
    v.cycle_focus();
    v.set_body_count(3);
    assert_eq!(v.focus(), 3);
    assert_eq!(v.body_count(), 3);
    assert_eq!(v.focus_label(), "Moon");
    v.cycle_focus();
    assert_eq!(v.focus(), 1);
}

#[test]
fn many_moon_labels_count_letters() {
    let mut v = ViewFocus::new(10);
    for _ in 0..8 {
        v.cycle_focus();
    }
    assert_eq!(v.focus(), 9);
    assert_eq!(v.focus_label(), "Moon H");
}
