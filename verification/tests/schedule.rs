use greenfield_engine::schedule::{BlockSchedule, MAX_LEVEL};

#[test]
fn levels_set_the_block_and_each_particles_stride() {
    let s = BlockSchedule::new(vec![0, 2, 1]);
    assert_eq!(s.len(), 3);
    assert_eq!(s.top_level(), 2);
    assert_eq!(s.sub_ticks(), 4);
    assert_eq!(s.stride(0), 4);
    assert_eq!(s.stride(1), 1);
    assert_eq!(s.stride(2), 2);
}

#[test]
fn each_particle_kicks_two_to_its_level_times_and_ends_synchronized() {
    let levels = vec![0, 3, 1, 2, 3, 0];
    let s = BlockSchedule::new(levels.clone());
    let n = s.sub_ticks();
    assert_eq!(n, 8);
    for (i, &l) in levels.iter().enumerate() {
        let starts = (0..n).filter(|&t| s.starts_step(i, t)).count();
        let ends = (0..n).filter(|&t| s.ends_step(i, t)).count();
        assert_eq!(starts, 1 << l);
        assert_eq!(ends, 1 << l);
        assert!(s.starts_step(i, 0));
        assert!(s.ends_step(i, n - 1));
    }
    assert_eq!(s.active_mask(n - 1), vec![true; 6]);
    assert_eq!(s.active_mask(0), vec![false, true, false, false, true, false]);
    assert_eq!(s.active_mask(3), vec![false, true, true, true, true, false]);
}

#[test]
fn a_quiescent_block_is_one_global_step() {
    let s = BlockSchedule::new(vec![0, 0, 0]);
    assert_eq!(s.top_level(), 0);
    assert_eq!(s.sub_ticks(), 1);
    assert_eq!(s.active_mask(0), vec![true, true, true]);
    let empty = BlockSchedule::new(Vec::new());
    assert_eq!(empty.sub_ticks(), 1);
    assert!(empty.active_mask(0).is_empty());
}

#[test]
fn the_fastest_bucket_is_capped() {
    let s = BlockSchedule::new(vec![MAX_LEVEL, 0]);
    assert_eq!(s.sub_ticks(), 64);
    assert_eq!(s.stride(0), 1);
    assert_eq!(s.stride(1), 64);
    for t in 0..64 {
        assert!(s.ends_step(0, t), "the fastest particle is active every sub-tick");
    }
}
