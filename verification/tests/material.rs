//! Materials and the palette entries they govern.

use voxview::material::{
    assign, count_of, describe_materials, mask_of, slot_of, uses, zero_based, Uses,
};
use voxview::voxfile::MaterialSource;

fn material(id: u32, kind: &str) -> MaterialSource {
    MaterialSource {
        id,
        kind: Some(kind.to_string()),
        emit: None,
        flux: None,
        metal: None,
        rough: None,
        alpha: None,
        trans: None,
    }
}

#[test]
fn a_file_with_no_materials_leaves_every_surface_plain() {
    let table = assign(&vec![]);
    assert_eq!(table.len(), 256);
    assert!(table.iter().all(|m| m.is_none()));
}

#[test]
fn magicavoxel_ids_are_one_ahead_of_the_palette() {
    // Id 1 is the colour a voxel with index 0 is painted.
    let table = assign(&vec![material(1, "_emit"), material(256, "_emit")]);
    assert_eq!(table[0], Some(0), "id 1 should light up index 0");
    assert_eq!(table[255], Some(1), "id 256 should light up index 255");
}

#[test]
fn a_writer_that_numbers_from_zero_is_taken_at_its_word() {
    let materials = vec![material(0, "_emit"), material(5, "_emit")];
    assert!(zero_based(&materials));
    let table = assign(&materials);
    assert_eq!(table[0], Some(0), "id 0 can only mean index 0");
    assert_eq!(table[5], Some(1));
    assert_eq!(table[4], None);
}

#[test]
fn properties_the_type_does_not_use_are_ignored() {
    // Straight out of a real file: an emissive material carrying the
    // metalness left over from when it was something else.
    let mut m = material(1, "_emit");
    m.emit = Some("1".into());
    m.metal = Some("0.77".into());
    m.alpha = Some("0.5".into());
    let used = uses(&m);
    assert!(!used.metalness, "an emissive surface is not a metal one");
    assert!(!used.transparency, "an emissive surface is not glass");
    assert!(used.emission);
}

#[test]
fn a_diffuse_material_is_indistinguishable_from_none() {
    let mut m = material(1, "_diffuse");
    m.rough = Some("0.4".into());
    let none = Uses {
        emission: false,
        metalness: false,
        roughness: false,
        transparency: false,
    };
    assert_eq!(uses(&m), none);
    m.kind = None;
    assert_eq!(uses(&m), none);
}

#[test]
fn an_id_beyond_the_palette_is_dropped_rather_than_wrapped() {
    let table = assign(&vec![material(9000, "_emit"), material(1, "_emit")]);
    assert_eq!(table.iter().filter(|m| m.is_some()).count(), 1);
    assert_eq!(table[0], Some(1));
    assert_eq!(slot_of(0, false), None);
    assert_eq!(slot_of(257, false), None);
    assert_eq!(slot_of(256, true), None);
}

#[test]
fn the_transparent_mask_marks_the_right_bits() {
    let materials = vec![material(1, "_glass"), material(200, "_glass")];
    let table = assign(&materials);
    let mut flags = [false; 256];
    for (flag, slot) in flags.iter_mut().zip(&table) {
        *flag = slot.is_some_and(|m| uses(&materials[m]).transparency);
    }
    let mask = mask_of(&flags);
    assert_eq!(mask[0] & 1, 1, "index 0 should be marked");
    assert_eq!(mask[3] >> (199 - 192) & 1, 1, "index 199 should be marked");
    assert_eq!(mask.iter().map(|w| w.count_ones()).sum::<u32>(), 2);
    assert_eq!(count_of(&flags), 2);
}

#[test]
fn the_last_material_of_a_slot_governs_it() {
    let table = assign(&vec![material(7, "_emit"), material(7, "_glass")]);
    assert_eq!(table[6], Some(1));
}

#[test]
fn only_what_there_is_of_is_described() {
    assert_eq!(describe_materials(0, 0, 0), "");
    assert_eq!(describe_materials(3, 0, 1), "  (3 emissive, 1 transparent)");
    assert_eq!(describe_materials(0, 2, 0), "  (2 metal)");
}
