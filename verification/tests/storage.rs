use entity_engine::ecs::blob::Blob;
use entity_engine::ecs::block::{round_up_to, Granularity, SlotError};
use entity_engine::ecs::entity::Entity;
use entity_engine::ecs::offset_table::ComponentOffsetTable;
use entity_engine::ecs::slab::{block_size_with_header, Slab};

#[test]
fn rounding() {
    assert_eq!(round_up_to(0, 16), 0);
    assert_eq!(round_up_to(1, 16), 16);
    assert_eq!(round_up_to(16, 16), 16);
    assert_eq!(round_up_to(17, 16), 32);
}

#[test]
fn granularities() {
    assert_eq!(Granularity::Small.size(), 512);
    assert_eq!(Granularity::Medium.size(), 2048);
    assert_eq!(Granularity::Large.size(), 8192);
}

#[test]
fn slots_are_taken_from_the_first_that_fits() {
    let mut blob: Blob<u32> = Blob::new();
    let off = blob.next_block(Granularity::Small);
    let block = blob.get_block_mut(off);
    assert_eq!(block.next_free(10), Ok(0));
    assert_eq!(block.next_free(20), Ok(16));
    assert_eq!(block.next_free(16), Ok(48));
    block.mark_free(0, 10);
    // the first slot is too small for this.
    assert_eq!(block.next_free(32), Ok(64));
    assert_eq!(block.next_free(16), Ok(0));
}

#[test]
fn adjacent_slots_are_merged() {
    let mut blob: Blob<u32> = Blob::new();
    let off = blob.next_block(Granularity::Small);
    let block = blob.get_block_mut(off);
    for n in 0..32 {
        assert_eq!(block.next_free(16), Ok(16 * n));
    }
    assert_eq!(block.check_free(16), Err(SlotError::NeedsPromote(Granularity::Medium)));
    block.mark_free(16, 16);
    block.mark_free(48, 16);
    block.mark_free(32, 16);
    block.merge_adjacent_slots();
    assert_eq!(block.next_free(48), Ok(16));
    block.mark_free(0, 512 - 16);
    block.mark_free(512 - 16, 16);
    block.merge_adjacent_slots();
    assert_eq!(block.next_free(512), Ok(0));
}

#[test]
fn blocks_say_what_they_need() {
    let mut blob: Blob<u32> = Blob::new();
    let off = blob.next_block(Granularity::Small);
    let block = blob.get_block_mut(off);
    assert_eq!(block.next_free(600), Err(SlotError::NeedsPromote(Granularity::Medium)));
    assert_eq!(block.next_free(2000), Err(SlotError::NeedsPromote(Granularity::Large)));
    assert_eq!(block.next_free(8000), Err(SlotError::TooBig));
    assert_eq!(block.check_free(512), Ok(()));
}

#[test]
fn data_moves_with_a_promotion() {
    let mut blob: Blob<u32> = Blob::new();
    assert!(blob.can_allocate(Granularity::Small));
    let off = blob.next_block(Granularity::Small);
    let e = Entity::new(3, 0);
    {
        let block = blob.get_block_mut(off);
        block.initialize(e);
        let at = block.next_free(16).unwrap();
        assert_eq!(block.write(at, 5), None);
        assert_eq!(block.write(at, 6), Some(5));
        let at = block.next_free(32).unwrap();
        assert_eq!(block.write(at, 7), None);
        *block.data_ptr_mut(at).unwrap() += 1;
    }
    let moved = blob.promote_block(off, Granularity::Medium);
    let block = blob.get_block_mut(moved);
    assert_eq!(block.offset(), moved);
    assert_eq!(block.data_ptr(0), Some(&6));
    assert_eq!(block.data_ptr(16), Some(&8));
    // the new memory is a slot of its own until it is merged.
    assert_eq!(block.check_free(2048 - 48), Err(SlotError::NeedsPromote(Granularity::Large)));
    block.merge_adjacent_slots();
    assert_eq!(block.next_free(2048 - 48), Ok(48));
    assert_eq!(block.take(0), Some(6));
    assert_eq!(block.data_ptr(0), None);
    blob.free_block(moved);
}

#[test]
fn slabs_reuse_their_blocks() {
    let mut slab: Slab<u32> = Slab::new(Granularity::Small);
    let mut taken = Vec::new();
    for _ in 0..100 {
        assert!(slab.can_allocate());
        let idx = slab.next_block();
        assert!(slab.is_alive(idx));
        assert!(!taken.contains(&idx));
        taken.push(idx);
    }
    slab.mark_free(taken[10]);
    assert!(!slab.is_alive(taken[10]));
    slab.mark_free(taken[10]);
    let idx = slab.next_block();
    assert_eq!(idx, taken[10]);
    assert_eq!(slab.get_block(idx).data_ptr(0), None);
    assert_eq!(slab.get_block_mut(idx).next_free(512), Ok(0));
}

#[test]
fn slab_kinds() {
    assert_eq!(block_size_with_header(512), 528);
    let slab: Slab<u32> = Slab::new(Granularity::Small);
    let k = slab.make_kind(3).unwrap();
    assert_eq!(k.size().get(), 3 * 528);
    assert!(slab.make_kind(0).is_none());
}

#[test]
fn offset_tables() {
    let mut t: ComponentOffsetTable<u32> = ComponentOffsetTable::new(4, 24, vec![1, 2]);
    let e = Entity::new(7, 0);
    assert_eq!((t.id(), t.size()), (4, 24));
    assert_eq!(t.dependencies(), &vec![1, 2]);
    assert_eq!(t.offset_of(e), None);
    t.set(e, 48);
    assert_eq!(t.offset_of(e), Some(48));
    t.set(e, 64);
    assert_eq!(t.remove(e), Some(64));
    assert_eq!(t.remove(e), None);
    assert_eq!(t.remove(Entity::new(9, 0)), None);
    t.set(e, 16);
    t.clear_for(&vec![e]);
    assert_eq!(t.offset_of(e), None);
}

#[test]
fn offset_tables_of_components_without_data() {
    let mut t: ComponentOffsetTable<u32> = ComponentOffsetTable::new(4, 0, Vec::new());
    let e = Entity::new(1, 0);
    assert_eq!(t.set_unit(e, 1), None);
    assert_eq!(t.set_unit(e, 2), Some(1));
    *t.unit_of_mut(e).unwrap() = 3;
    assert_eq!(t.unit_of(e), Some(&3));
    assert_eq!(t.take_unit(e), Some(3));
    assert_eq!(t.take_unit(e), None);
    assert_eq!(t.unit_of(e), None);
}
