use greenfield_engine::debris_slots::{workgroups, DebrisSlots};
use greenfield_engine::drain::drain_order;
use greenfield_engine::materials::{eos_preset_for, index_of, position_of, EosPreset};
use greenfield_engine::octree::{becomes_leaf, octant, octant_sides, MAX_DEPTH};
use greenfield_engine::shading::jitter_bits;

#[test]
fn voxel_jitter_is_a_fixed_hash() {
    assert_eq!(jitter_bits(0, 0, 0), 0);
    assert_eq!(jitter_bits(1, 2, 3), 23746);
    assert_eq!(jitter_bits(95, 40, 95), 56028);
    for x in 0..20 {
        for z in 0..20 {
            assert!(jitter_bits(x, 7, z) <= 0xffff);
        }
    }
}

#[test]
fn materials_are_found_by_id() {
    let ids: Vec<String> = ["granite", "dirt", "grass", "dirt"].iter().map(|s| s.to_string()).collect();
    assert_eq!(index_of(&ids, "granite"), 0);
    assert_eq!(index_of(&ids, "grass"), 2);
    assert_eq!(index_of(&ids, "dirt"), 1, "the first match");
    assert_eq!(position_of(&ids, "iron"), None);
}

#[test]
fn eos_presets_exist_for_rock_and_iron_only() {
    assert_eq!(eos_preset_for("granite"), Some(EosPreset::Granite));
    assert_eq!(eos_preset_for("basalt"), Some(EosPreset::Basalt));
    assert_eq!(eos_preset_for("peridotite"), Some(EosPreset::Peridotite));
    assert_eq!(eos_preset_for("iron"), Some(EosPreset::Iron));
    assert_eq!(eos_preset_for("water"), None);
    assert_eq!(eos_preset_for("Granite"), None);
}

#[test]
fn demotion_swap_removes_settled_particles() {
    // Particles 1 and 3 settled: 1's slot takes the last particle (4), then 3 is removed.
    let (drained, order) = drain_order(&vec![false, true, false, true, false]);
    assert_eq!(drained, 2);
    assert_eq!(order, vec![0, 4, 2]);
    let (d, o) = drain_order(&vec![true, true]);
    assert_eq!((d, o), (2, vec![]));
    let (d, o) = drain_order(&vec![false; 3]);
    assert_eq!((d, o), (0, vec![0, 1, 2]));
}

#[test]
fn octants_pack_the_three_sides() {
    assert_eq!(octant(false, false, false), 0);
    assert_eq!(octant(true, false, false), 1);
    assert_eq!(octant(false, true, true), 6);
    for o in 0..8 {
        let (x, y, z) = octant_sides(o);
        assert_eq!(octant(x, y, z), o);
    }
    assert!(becomes_leaf(1, 0));
    assert!(!becomes_leaf(2, 3));
    assert!(becomes_leaf(5, MAX_DEPTH));
}

#[test]
fn debris_buffer_caps_at_capacity_and_drops_the_rest() {
    let mut s = DebrisSlots::new(10);
    assert_eq!(s.append(4), (4, 0));
    assert_eq!(s.append(4), (4, 4));
    assert_eq!(s.append(4), (2, 8), "only two fit; two are dropped");
    assert_eq!(s.count(), 10);
    assert_eq!(s.append(3), (0, 10));
    assert_eq!(s.capacity(), 10);
    assert_eq!(workgroups(0), 0);
    assert_eq!(workgroups(1), 1);
    assert_eq!(workgroups(64), 1);
    assert_eq!(workgroups(65), 2);
    assert_eq!(workgroups(1 << 18), 4096);
}
