use ppatch::geometry::{check_geometry, FieldBlock};
use ppatch::sparse_array::SparseArrayPatcher;

fn fb(field_start: u16, offset: u16, mask: u32) -> FieldBlock {
    FieldBlock { field_start, offset, mask }
}

#[test]
fn single_bit_change_round_trip() {
    let geometry = vec![fb(0, 0, 0xFFFF_FFFF)];
    assert!(check_geometry(&geometry, 1));
    let mut p = SparseArrayPatcher::new(&geometry, 4);
    let before = vec![0x0000_0001u32];
    let after = vec![0x0000_0002u32];
    let id = p.create_patch(&before, &after).unwrap();
    assert_eq!(p.block_count(id), Some(1));
    let mut live = after.clone();
    p.restore_patch(id, &mut live);
    assert_eq!(live, before);
    assert_eq!(p.block_count(id), None);
}

#[test]
fn full_occlusion() {
    let geometry = vec![fb(0, 0, 0xFFFF_FFFF)];
    let mut p = SparseArrayPatcher::new(&geometry, 4);
    let mut live = vec![0x00u32];
    let first = p.create_patch(&live, &[0xAA]).unwrap();
    live = vec![0xAA];
    let second = p.create_patch(&live, &[0xBB]).unwrap();
    live = vec![0xBB];
    p.restore_patch(first, &mut live);
    assert_eq!(live, vec![0xBB]);
    p.restore_patch(second, &mut live);
    assert_eq!(live, vec![0x00]);
}

#[test]
fn partial_occlusion_on_bitfields() {
    let geometry = vec![fb(0, 0, 0x0000_FFFF), fb(1, 0, 0xFFFF_0000)];
    assert!(check_geometry(&geometry, 1));
    let mut p = SparseArrayPatcher::new(&geometry, 4);
    let mut live = vec![0x0000_0000u32];
    let first = p.create_patch(&live, &[0x0000_1111]).unwrap();
    live = vec![0x0000_1111];
    let second = p.create_patch(&live, &[0x2222_1111]).unwrap();
    live = vec![0x2222_1111];
    p.restore_patch(first, &mut live);
    assert_eq!(live, vec![0x2222_0000]);
    p.restore_patch(second, &mut live);
    assert_eq!(live, vec![0x0000_0000]);
}

#[test]
fn sibling_bitfield_mutated_between_create_and_restore() {
    let geometry = vec![fb(0, 0, 0x0000_FFFF), fb(1, 0, 0xFFFF_0000)];
    let mut p = SparseArrayPatcher::new(&geometry, 4);
    let mut live = vec![0x1234_0000u32];
    let first = p.create_patch(&live, &[0x1234_00AA]).unwrap();
    live = vec![0x1234_00AA];
    let second = p.create_patch(&live, &[0x5678_00AA]).unwrap();
    live = vec![0x5678_00AA];
    p.restore_patch(first, &mut live);
    assert_eq!(live, vec![0x5678_0000]);
    p.restore_patch(second, &mut live);
    assert_eq!(live, vec![0x1234_0000]);
}

#[test]
fn out_of_order_revert_across_three_patches() {
    let geometry = vec![fb(0, 0, 0x0000_00FF), fb(1, 0, 0x0000_FF00), fb(2, 0, 0x00FF_0000)];
    assert!(check_geometry(&geometry, 1));
    let mut p = SparseArrayPatcher::new(&geometry, 4);
    let initial = vec![0x0000_0000u32];
    let mut live = initial.clone();
    let first = p.create_patch(&live, &[0x0000_0011]).unwrap();
    live = vec![0x0000_0011];
    let second = p.create_patch(&live, &[0x0000_2211]).unwrap();
    live = vec![0x0000_2211];
    let third = p.create_patch(&live, &[0x0033_2211]).unwrap();
    live = vec![0x0033_2211];
    p.restore_patch(second, &mut live);
    assert_eq!(live, vec![0x0033_0011]);
    p.restore_patch(first, &mut live);
    assert_eq!(live, vec![0x0033_0000]);
    p.restore_patch(third, &mut live);
    assert_eq!(live, initial);
}

#[test]
fn field_spanning_two_words() {
    let geometry = vec![fb(0, 0, 0xFFFF_FFFF), fb(0, 1, 0x0000_FFFF)];
    assert!(check_geometry(&geometry, 2));
    let mut p = SparseArrayPatcher::new(&geometry, 8);
    let before = vec![0x1111_1111u32, 0x0000_2222];
    let after = vec![0x1111_1111u32, 0x0000_3333];
    let id = p.create_patch(&before, &after).unwrap();
    assert_eq!(p.block_count(id), Some(2));
    let mut live = after.clone();
    p.restore_patch(id, &mut live);
    assert_eq!(live, before);
}

#[test]
fn partial_word_occlusion_of_wide_field() {
    // A 48-bit field across two words, and a later patch on the same field.
    let geometry = vec![fb(0, 0, 0xFFFF_FFFF), fb(0, 1, 0x0000_FFFF)];
    let mut p = SparseArrayPatcher::new(&geometry, 8);
    let mut live = vec![0u32, 0];
    let first = p.create_patch(&live, &[1, 1]).unwrap();
    live = vec![1, 1];
    let second = p.create_patch(&live, &[1, 2]).unwrap();
    live = vec![1, 2];
    p.restore_patch(first, &mut live);
    assert_eq!(live, vec![1, 2]);
    p.restore_patch(second, &mut live);
    assert_eq!(live, vec![0, 0]);
}

#[test]
fn zero_diff_edit_consumes_no_blocks() {
    let geometry = vec![fb(0, 0, 0xFFFF_FFFF), fb(1, 1, 0xFFFF_FFFF)];
    let mut p = SparseArrayPatcher::new(&geometry, 8);
    let x = vec![0xDEAD_BEEFu32, 0x0BAD_F00D];
    let id = p.create_patch(&x, &x).unwrap();
    assert_eq!(p.block_count(id), Some(0));
    let mut live = vec![7u32, 9];
    p.restore_patch(id, &mut live);
    assert_eq!(live, vec![7, 9]);
}

#[test]
fn identity_patch_leaves_other_patches_intact() {
    let geometry = vec![fb(0, 0, 0xFFFF_FFFF)];
    let mut p = SparseArrayPatcher::new(&geometry, 4);
    let mut live = vec![5u32];
    let a = p.create_patch(&live, &[6]).unwrap();
    live = vec![6];
    let b = p.create_patch(&live, &live.clone()).unwrap();
    p.restore_patch(b, &mut live);
    assert_eq!(live, vec![6]);
    p.restore_patch(a, &mut live);
    assert_eq!(live, vec![5]);
}

#[test]
fn padding_bits_are_never_rewritten() {
    // Only the low byte belongs to a field; the rest of the word is padding.
    let geometry = vec![fb(0, 0, 0x0000_00FF)];
    let mut p = SparseArrayPatcher::new(&geometry, 4);
    let before = vec![0xAB00_0001u32];
    let after = vec![0xCD00_0002u32];
    let id = p.create_patch(&before, &after).unwrap();
    let mut live = vec![0xEF00_0002u32];
    p.restore_patch(id, &mut live);
    assert_eq!(live, vec![0xEF00_0001]);
}

#[test]
fn ids_are_unique_and_restores_repeat() {
    let geometry = vec![fb(0, 0, 0xFFFF_FFFF)];
    let mut p = SparseArrayPatcher::new(&geometry, 4);
    let mut live = vec![0u32];
    let mut last = 0usize;
    for k in 0..2000u32 {
        let id = p.create_patch(&live, &[k + 1]).unwrap();
        assert!(id > last);
        last = id;
        live = vec![k + 1];
        p.restore_patch(id, &mut live);
        assert_eq!(live, vec![k]);
        live = vec![k];
        let id2 = p.create_patch(&live, &[k + 1]).unwrap();
        live = vec![k + 1];
        assert!(id2 > last);
        last = id2;
    }
    assert_eq!(live, vec![2000]);
}

#[test]
fn every_revert_order_shows_the_remaining_patches() {
    let geometry = vec![fb(0, 0, 0x0000_FFFF), fb(1, 0, 0xFFFF_0000), fb(2, 1, 0xFFFF_FFFF)];
    let edits: [[u32; 2]; 3] = [[0x0000_0001, 0], [0x0002_0001, 0], [0x0002_0003, 4]];
    let orders = [[0, 1, 2], [0, 2, 1], [1, 0, 2], [1, 2, 0], [2, 0, 1], [2, 1, 0]];
    for order in orders.iter() {
        let mut p = SparseArrayPatcher::new(&geometry, 8);
        let mut live = vec![0u32, 0];
        let mut ids = Vec::new();
        for e in edits.iter() {
            ids.push(p.create_patch(&live, e).unwrap());
            live = e.to_vec();
        }
        let mut active = [true, true, true];
        for &k in order.iter() {
            p.restore_patch(ids[k], &mut live);
            active[k] = false;
            // Expected: apply the still active edits over zero, in creation order.
            let mut expect = vec![0u32, 0];
            let mut prev = vec![0u32, 0];
            for (j, e) in edits.iter().enumerate() {
                if active[j] {
                    for w in 0..2 {
                        let changed = prev[w] ^ e[w];
                        for b in geometry.iter().filter(|b| b.offset as usize == w) {
                            if changed & b.mask != 0 {
                                expect[w] = (expect[w] & !b.mask) | (e[w] & b.mask);
                            }
                        }
                    }
                }
                prev = e.to_vec();
            }
            assert_eq!(live, expect, "order {:?}", order);
        }
        assert_eq!(live, vec![0, 0]);
    }
}

#[test]
fn geometry_rules_are_checked() {
    assert!(check_geometry(&[], 0));
    assert!(!check_geometry(&[fb(0, 1, 1)], 1));
    assert!(!check_geometry(&[fb(0, 0, 0x0F), fb(1, 0, 0x18)], 1));
    assert!(!check_geometry(&[fb(0, 0, 0xFF), fb(0, 2, 0xFF)], 3));
    assert!(!check_geometry(&[fb(1, 0, 0xFF)], 1));
    assert!(check_geometry(&[fb(0, 0, 0xFF), fb(1, 0, 0xFF00), fb(1, 1, 0xFF)], 2));
}

#[test]
fn sparse_ids_count_up_from_one() {
    let geometry = vec![fb(0, 0, 0xFF)];
    let mut p = SparseArrayPatcher::new(&geometry, 4);
    let row = vec![0u32];
    let a = p.create_patch(&row, &[1]).unwrap();
    let mut live = vec![1u32];
    p.restore_patch(a, &mut live);
    let b = p.create_patch(&row, &[2]).unwrap();
    assert_eq!((a, b), (1, 2));
}
