use ppatch::geometry::FieldBlock;
use ppatch::linked_list::{LinkedListPatcher, PatchedFieldRef, RowDiffId, NO_SLOT};
use ppatch::sparse_array::SparseArrayPatcher;

fn fb(field_start: u16, offset: u16, mask: u32) -> FieldBlock {
    FieldBlock { field_start, offset, mask }
}

#[test]
fn linked_single_bit_round_trip() {
    let geometry = vec![fb(0, 0, 0xFFFF_FFFF)];
    let mut p = LinkedListPatcher::new(&geometry, 4);
    let before = vec![1u32];
    let after = vec![2u32];
    let id = p.create_patch(&before, &after).unwrap();
    let mut live = after.clone();
    p.restore_patch(id, &mut live);
    assert_eq!(live, before);
}

#[test]
fn linked_occlusion_and_bitfields() {
    let geometry = vec![fb(0, 0, 0x0000_FFFF), fb(1, 0, 0xFFFF_0000)];
    let mut p = LinkedListPatcher::new(&geometry, 4);
    let mut live = vec![0u32];
    let first = p.create_patch(&live, &[0x0000_1111]).unwrap();
    live = vec![0x0000_1111];
    let second = p.create_patch(&live, &[0x2222_1111]).unwrap();
    live = vec![0x2222_1111];
    p.restore_patch(first, &mut live);
    assert_eq!(live, vec![0x2222_0000]);
    p.restore_patch(second, &mut live);
    assert_eq!(live, vec![0]);
}

#[test]
fn linked_full_occlusion() {
    let geometry = vec![fb(0, 0, 0xFFFF_FFFF)];
    let mut p = LinkedListPatcher::new(&geometry, 4);
    let mut live = vec![0x00u32];
    let first = p.create_patch(&live, &[0xAA]).unwrap();
    live = vec![0xAA];
    let second = p.create_patch(&live, &[0xBB]).unwrap();
    live = vec![0xBB];
    p.restore_patch(first, &mut live);
    assert_eq!(live, vec![0xBB]);
    p.restore_patch(second, &mut live);
    assert_eq!(live, vec![0x00]);
}

#[test]
fn linked_field_spanning_two_words() {
    let geometry = vec![fb(0, 0, 0xFFFF_FFFF), fb(0, 1, 0x0000_FFFF)];
    let mut p = LinkedListPatcher::new(&geometry, 8);
    let mut live = vec![0u32, 0];
    let first = p.create_patch(&live, &[1, 1]).unwrap();
    live = vec![1, 1];
    let second = p.create_patch(&live, &[1, 2]).unwrap();
    live = vec![1, 2];
    p.restore_patch(first, &mut live);
    assert_eq!(live, vec![1, 2]);
    p.restore_patch(second, &mut live);
    assert_eq!(live, vec![0, 0]);
}

#[test]
fn linked_slots_are_reused() {
    let geometry = vec![fb(0, 0, 0xFF)];
    let mut p = LinkedListPatcher::new(&geometry, 4);
    let mut live = vec![0u32];
    let a = p.create_patch(&live, &[1]).unwrap();
    live = vec![1];
    p.restore_patch(a, &mut live);
    assert_eq!(live, vec![0]);
    let b = p.create_patch(&live, &[2]).unwrap();
    assert_eq!(a, b);
}

#[test]
fn linked_capacity_is_65535_live_patches() {
    let geometry = vec![fb(0, 0, 0xFF)];
    let mut p = LinkedListPatcher::new(&geometry, 4);
    let row = vec![0u32];
    let mut ids = Vec::new();
    for _ in 0..0xFFFF {
        ids.push(p.create_patch(&row, &row).unwrap());
    }
    assert_eq!(p.create_patch(&row, &row), None);
    let mut live = vec![5u32];
    p.restore_patch(ids[10], &mut live);
    assert_eq!(live, vec![5]);
    assert_eq!(p.create_patch(&row, &row), Some(ids[10]));
}

#[test]
fn both_patchers_agree_on_every_revert_order() {
    let geometry = vec![fb(0, 0, 0x0000_00FF), fb(1, 0, 0x00FF_FF00), fb(2, 1, 0xFFFF_FFFF), fb(2, 2, 0x0F)];
    let edits: [[u32; 3]; 4] = [
        [0x0000_0011, 0, 0],
        [0x0012_3411, 7, 0],
        [0x0012_3422, 7, 3],
        [0x0099_9922, 8, 3],
    ];
    let orders = [[0, 1, 2, 3], [3, 2, 1, 0], [1, 3, 0, 2], [2, 0, 3, 1], [1, 2, 0, 3]];
    for order in orders.iter() {
        let mut sp = SparseArrayPatcher::new(&geometry, 12);
        let mut ll = LinkedListPatcher::new(&geometry, 12);
        let mut live_s = vec![0u32, 0, 0];
        let mut live_l = vec![0u32, 0, 0];
        let mut ids_s = Vec::new();
        let mut ids_l = Vec::new();
        let mut prev = vec![0u32, 0, 0];
        for e in edits.iter() {
            ids_s.push(sp.create_patch(&prev, e).unwrap());
            ids_l.push(ll.create_patch(&prev, e).unwrap());
            prev = e.to_vec();
            live_s = prev.clone();
            live_l = prev.clone();
        }
        for &k in order.iter() {
            sp.restore_patch(ids_s[k], &mut live_s);
            ll.restore_patch(ids_l[k], &mut live_l);
            assert_eq!(live_s, live_l, "order {:?}", order);
        }
        assert_eq!(live_l, vec![0, 0, 0]);
    }
}

#[test]
fn slot_ids_and_refs() {
    assert_eq!(RowDiffId::none().0, NO_SLOT);
    assert_eq!(RowDiffId::none().as_index(), None);
    assert_eq!(RowDiffId(3).as_index(), Some(3));
    let r = PatchedFieldRef::new(RowDiffId(2), 5);
    assert!(!r.is_null());
    assert_eq!(r.index, 5);
    assert!(PatchedFieldRef::new(RowDiffId::none(), 0).is_null());
}

fn occlusion_through<P: ppatch::model::RowPatcher>() -> Vec<u32> {
    let geometry = vec![fb(0, 0, 0xFFFF_FFFF)];
    let mut p = P::new_patcher(&geometry, 4);
    let mut live = vec![0x00u32];
    let first = p.record(&live, &[0xAA]).unwrap();
    live = vec![0xAA];
    let second = p.record(&live, &[0xBB]).unwrap();
    live = vec![0xBB];
    p.restore(first, &mut live);
    assert_eq!(live, vec![0xBB]);
    p.restore(second, &mut live);
    live
}

#[test]
fn trait_drives_both_patchers() {
    assert_eq!(occlusion_through::<SparseArrayPatcher>(), vec![0x00]);
    assert_eq!(occlusion_through::<LinkedListPatcher>(), vec![0x00]);
}

#[test]
fn linked_zero_diff_edit_stores_nothing() {
    let geometry = vec![fb(0, 0, 0xFFFF_FFFF), fb(1, 1, 0xFFFF)];
    let mut p = LinkedListPatcher::new(&geometry, 8);
    let x = vec![3u32, 4];
    let id = p.create_patch(&x, &x).unwrap();
    assert_eq!(p.block_count(id), 0);
    let y = p.create_patch(&x, &[3, 5]).unwrap();
    assert_eq!(p.block_count(y), 1);
    let mut live = vec![9u32, 5];
    p.restore_patch(id, &mut live);
    assert_eq!(live, vec![9, 5]);
    p.restore_patch(y, &mut live);
    assert_eq!(live, vec![9, 4]);
}

#[test]
fn linked_ids_stay_below_the_null_slot() {
    let geometry = vec![fb(0, 0, 0xFF)];
    let mut p = LinkedListPatcher::new(&geometry, 4);
    let row = vec![0u32];
    for _ in 0..1000 {
        let id = p.create_patch(&row, &row).unwrap();
        assert!(id < NO_SLOT as usize);
    }
}
