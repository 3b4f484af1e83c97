//! Where the components of an entity lie in its block.

use vstd::prelude::*;
use super::block::BlockHandle;
use super::offset_table::{ComponentId, ComponentOffsetTable};
use super::slots;
use super::slots::Slot;
use crate::memory::arith;

verus! {

/// The number of bytes that a component of the given size takes up in a block.
pub open spec fn region_size(size: int) -> int {
    arith::round_up(size, 16)
}

/// The component takes up space in blocks, and the entity in the given slot has
/// it at `off`.
pub open spec fn sits_at<V>(
    tables: Map<ComponentId, ComponentOffsetTable<V>>,
    index: int,
    id: ComponentId,
    off: int,
) -> bool {
    &&& tables.contains_key(id)
    &&& 0 < tables[id].kind().size
    &&& tables[id].entry(index) is Some
    &&& tables[id].entry(index)->0 == off
}

/// None of the `size` bytes at `off` is free.
pub open spec fn none_free(s: Seq<Slot>, off: int, size: int) -> bool {
    forall|p: int| off <= p < off + size ==> !#[trigger] slots::in_slots(s, p)
}

/// The two runs of bytes share no byte.
pub open spec fn disjoint(a: int, a_size: int, b: int, b_size: int) -> bool {
    a + a_size <= b || b + b_size <= a
}

/// The `size` bytes at `off` are aligned, in the block, and in use.
pub open spec fn region_in_use<V>(b: BlockHandle<V>, off: int, size: int) -> bool {
    &&& 0 <= off
    &&& off % 16 == 0
    &&& off + size <= b.spec_granularity().bytes()
    &&& none_free(b.free_slots(), off, size)
    &&& b.contents().contains_key(off)
}

/// The components of the entity in the given slot lie in `b`, each in a region
/// of its own, and nothing else does.
pub open spec fn data_placed<V>(
    tables: Map<ComponentId, ComponentOffsetTable<V>>,
    index: int,
    b: BlockHandle<V>,
) -> bool {
    &&& forall|id: ComponentId, off: int| #[trigger]
        sits_at(tables, index, id, off) ==> region_in_use(
            b,
            off,
            region_size(tables[id].kind().size),
        )
    &&& forall|id1: ComponentId, off1: int, id2: ComponentId, off2: int|
        id1 != id2 && #[trigger] sits_at(tables, index, id1, off1) && #[trigger] sits_at(
            tables,
            index,
            id2,
            off2,
        ) ==> disjoint(
            off1,
            region_size(tables[id1].kind().size),
            off2,
            region_size(tables[id2].kind().size),
        )
    &&& forall|off: int| #[trigger]
        b.contents().contains_key(off) ==> exists|id: ComponentId| #[trigger]
            sits_at(tables, index, id, off)
}

/// The tables are the same, but for what one of them holds for one slot.
pub open spec fn retabled<V>(
    before: Map<ComponentId, ComponentOffsetTable<V>>,
    after: Map<ComponentId, ComponentOffsetTable<V>>,
    id: ComponentId,
    index: int,
) -> bool {
    &&& after.dom() == before.dom()
    &&& forall|i: ComponentId| #[trigger]
        after.contains_key(i) ==> after[i].same_component(&before[i])
    &&& forall|i: ComponentId, k: int|
        after.contains_key(i) && (i != id || k != index) ==> {
            &&& #[trigger] after[i].entry(k) == before[i].entry(k)
            &&& after[i].unit(k) == before[i].unit(k)
        }
}

// replacing one table by one that differs for one slot.
pub proof fn lemma_retabled<V>(
    tables: Map<ComponentId, ComponentOffsetTable<V>>,
    t: ComponentOffsetTable<V>,
    id: ComponentId,
    index: int,
)
    requires
        tables.contains_key(id),
        t.same_component(&tables[id]),
        forall|k: int| k != index ==> #[trigger] t.entry(k) == tables[id].entry(k),
        forall|k: int| k != index ==> #[trigger] t.unit(k) == tables[id].unit(k),
    ensures
        retabled(tables, tables.insert(id, t), id, index),
{
    let after = tables.insert(id, t);
    assert(after.dom() =~= tables.dom());
    assert forall|i: ComponentId, k: int|
        after.contains_key(i) && (i != id || k != index) implies {
        &&& #[trigger] after[i].entry(k) == tables[i].entry(k)
        &&& after[i].unit(k) == tables[i].unit(k)
    } by {
        if i == id {
            assert(t.unit(k) == tables[id].unit(k));
        }
    }
}

// a component is elsewhere only where the tables differ.
pub proof fn lemma_sits_same<V>(
    before: Map<ComponentId, ComponentOffsetTable<V>>,
    after: Map<ComponentId, ComponentOffsetTable<V>>,
    id: ComponentId,
    index: int,
)
    requires
        retabled(before, after, id, index),
    ensures
        forall|i: ComponentId, k: int, off: int|
            i != id || k != index ==> #[trigger] sits_at(after, k, i, off) == sits_at(
                before,
                k,
                i,
                off,
            ),
{
    assert forall|i: ComponentId, k: int, off: int| i != id || k != index implies #[trigger] sits_at(
        after,
        k,
        i,
        off,
    ) == sits_at(before, k, i, off) by {
        if after.contains_key(i) {
            assert(after[i].entry(k) == before[i].entry(k));
        }
    }
}

// the data of other slots lies where it lay.
pub proof fn lemma_placed_elsewhere<V>(
    before: Map<ComponentId, ComponentOffsetTable<V>>,
    after: Map<ComponentId, ComponentOffsetTable<V>>,
    id: ComponentId,
    index: int,
    other: int,
    b: BlockHandle<V>,
)
    requires
        retabled(before, after, id, index),
        other != index,
        data_placed(before, other, b),
    ensures
        data_placed(after, other, b),
{
    lemma_sits_same(before, after, id, index);
    assert forall|off: int| #[trigger] b.contents().contains_key(off) implies exists|
        i: ComponentId,
    | #[trigger] sits_at(after, other, i, off) by {
        let i = choose|i: ComponentId| #[trigger] sits_at(before, other, i, off);
        assert(sits_at(after, other, i, off));
    }
}

// the data lies where it lay if the tables have the same entries.
pub proof fn lemma_placed_same<V>(
    before: Map<ComponentId, ComponentOffsetTable<V>>,
    after: Map<ComponentId, ComponentOffsetTable<V>>,
    id: ComponentId,
    index: int,
    b: BlockHandle<V>,
)
    requires
        retabled(before, after, id, index),
        before.contains_key(id),
        after[id].entry(index) == before[id].entry(index) || before[id].kind().size == 0,
        data_placed(before, index, b),
    ensures
        data_placed(after, index, b),
{
    lemma_sits_same(before, after, id, index);
    assert(after.contains_key(id));
    assert forall|i: ComponentId, off: int| #[trigger]
        sits_at(after, index, i, off) == sits_at(before, index, i, off) by {
    }
    assert forall|off: int| #[trigger] b.contents().contains_key(off) implies exists|
        i: ComponentId,
    | #[trigger] sits_at(after, index, i, off) by {
        let i = choose|i: ComponentId| #[trigger] sits_at(before, index, i, off);
        assert(sits_at(after, index, i, off));
    }
}

// a run of bytes none of which is free shares no byte with a free slot.
pub proof fn lemma_none_free_apart(s: Seq<Slot>, off: int, size: int, bytes: int)
    requires
        slots::slots_fit(s, bytes),
        none_free(s, off, size),
        0 < size,
    ensures
        slots::apart_from(s, off, size),
{
    assert forall|i: int| 0 <= i < s.len() implies (#[trigger] s[i]).off + s[i].size <= off || off
        + size <= s[i].off by {
        if s[i].off + s[i].size > off && off + size > s[i].off {
            let p = if s[i].off < off {
                off
            } else {
                s[i].off
            };
            assert(slots::in_slots(s, p));
        }
    }
}

// another value in the place of a value.
pub proof fn lemma_placed_write<V>(
    tables: Map<ComponentId, ComponentOffsetTable<V>>,
    index: int,
    b: BlockHandle<V>,
    b2: BlockHandle<V>,
    off: int,
    v: V,
)
    requires
        data_placed(tables, index, b),
        b.contents().contains_key(off),
        b2.contents() == b.contents().insert(off, v),
        b2.free_slots() == b.free_slots(),
        b2.spec_granularity() == b.spec_granularity(),
    ensures
        data_placed(tables, index, b2),
{
    assert(b2.contents().dom() =~= b.contents().dom());
}

// the same data in a larger block, with a free slot at the end.
pub proof fn lemma_placed_promote<V>(
    tables: Map<ComponentId, ComponentOffsetTable<V>>,
    index: int,
    b: BlockHandle<V>,
    b2: BlockHandle<V>,
)
    requires
        data_placed(tables, index, b),
        b.spec_granularity().bytes() < b2.spec_granularity().bytes(),
        b2.contents() == b.contents(),
        b2.free_slots() == b.free_slots().push(
            Slot {
                off: b.spec_granularity().bytes(),
                size: b2.spec_granularity().bytes() - b.spec_granularity().bytes(),
            },
        ),
    ensures
        data_placed(tables, index, b2),
{
    let slot = Slot {
        off: b.spec_granularity().bytes(),
        size: b2.spec_granularity().bytes() - b.spec_granularity().bytes(),
    };
    assert forall|id: ComponentId, off: int| #[trigger]
        sits_at(tables, index, id, off) implies region_in_use(
        b2,
        off,
        region_size(tables[id].kind().size),
    ) by {
        let size = region_size(tables[id].kind().size);
        assert(region_in_use(b, off, size));
        assert forall|p: int| off <= p < off + size implies !#[trigger] slots::in_slots(
            b2.free_slots(),
            p,
        ) by {
            slots::lemma_push_covers(b.free_slots(), slot, p);
        }
    }
}

// a component comes to lie in the first bytes of a free slot.
pub proof fn lemma_placed_add<V>(
    before: Map<ComponentId, ComponentOffsetTable<V>>,
    after: Map<ComponentId, ComponentOffsetTable<V>>,
    id: ComponentId,
    index: int,
    b: BlockHandle<V>,
    b2: BlockHandle<V>,
    i: int,
    v: V,
)
    requires
        data_placed(before, index, b),
        slots::slots_fit(b.free_slots(), b.spec_granularity().bytes()),
        before.contains_key(id),
        0 < before[id].kind().size,
        before[id].entry(index) is None,
        0 <= i < b.free_slots().len(),
        region_size(before[id].kind().size) <= b.free_slots()[i].size,
        b2.spec_granularity() == b.spec_granularity(),
        b2.free_slots() == slots::take_from_slot(
            b.free_slots(),
            i,
            region_size(before[id].kind().size),
        ),
        b2.contents() == b.contents().insert(b.free_slots()[i].off, v),
        retabled(before, after, id, index),
        after[id].entry(index) is Some,
        after[id].entry(index)->0 == b.free_slots()[i].off,
    ensures
        data_placed(after, index, b2),
{
    let s = b.free_slots();
    let bytes = b.spec_granularity().bytes();
    let need = region_size(before[id].kind().size);
    let at = s[i].off;
    arith::lemma_round_up(before[id].kind().size, 16);
    lemma_sits_same(before, after, id, index);
    assert forall|p: int| #[trigger] slots::in_slots(b2.free_slots(), p) == (slots::in_slots(s, p)
        && !(at <= p < at + need)) by {
        slots::lemma_take_covers(s, i, need, bytes, p);
    }
    assert forall|i2: ComponentId, off: int| #[trigger]
        sits_at(after, index, i2, off) implies region_in_use(
        b2,
        off,
        region_size(after[i2].kind().size),
    ) by {
        if i2 != id {
            assert(sits_at(before, index, i2, off));
            assert(region_in_use(b, off, region_size(before[i2].kind().size)));
        }
    }
    assert forall|i2: ComponentId, off: int|
        i2 != id && #[trigger] sits_at(after, index, i2, off) implies disjoint(
        off,
        region_size(after[i2].kind().size),
        at,
        need,
    ) by {
        assert(sits_at(before, index, i2, off));
        let size = region_size(before[i2].kind().size);
        arith::lemma_round_up(before[i2].kind().size, 16);
        assert(region_in_use(b, off, size));
        lemma_none_free_apart(s, off, size, bytes);
    }
    assert forall|off: int| #[trigger] b2.contents().contains_key(off) implies exists|
        i2: ComponentId,
    | #[trigger] sits_at(after, index, i2, off) by {
        if off == at {
            assert(sits_at(after, index, id, off));
        } else {
            assert(b.contents().contains_key(off));
            let i2 = choose|i2: ComponentId| #[trigger] sits_at(before, index, i2, off);
            assert(sits_at(after, index, i2, off));
        }
    }
}

// a component leaves its place, which becomes free.
pub proof fn lemma_placed_remove<V>(
    before: Map<ComponentId, ComponentOffsetTable<V>>,
    after: Map<ComponentId, ComponentOffsetTable<V>>,
    id: ComponentId,
    index: int,
    b: BlockHandle<V>,
    b2: BlockHandle<V>,
    off: int,
)
    requires
        data_placed(before, index, b),
        slots::slots_fit(b.free_slots(), b.spec_granularity().bytes()),
        sits_at(before, index, id, off),
        b2.spec_granularity() == b.spec_granularity(),
        b2.contents() == b.contents().remove(off),
        b2.free_slots() == slots::coalesce(
            slots::insert_slot(
                b.free_slots(),
                Slot { off, size: region_size(before[id].kind().size) },
            ),
        ),
        retabled(before, after, id, index),
        after[id].entry(index) is None,
    ensures
        data_placed(after, index, b2),
{
    let s = b.free_slots();
    let bytes = b.spec_granularity().bytes();
    let size = region_size(before[id].kind().size);
    arith::lemma_round_up(before[id].kind().size, 16);
    lemma_sits_same(before, after, id, index);
    lemma_released(s, off, size, bytes);
    assert forall|i2: ComponentId, off2: int| #[trigger]
        sits_at(after, index, i2, off2) implies region_in_use(
        b2,
        off2,
        region_size(after[i2].kind().size),
    ) by {
        assert(i2 != id);
        assert(sits_at(before, index, i2, off2));
        arith::lemma_round_up(before[i2].kind().size, 16);
        assert(region_in_use(b, off2, region_size(before[i2].kind().size)));
        assert(disjoint(off, size, off2, region_size(before[i2].kind().size)));
    }
    assert forall|off2: int| #[trigger] b2.contents().contains_key(off2) implies exists|
        i2: ComponentId,
    | #[trigger] sits_at(after, index, i2, off2) by {
        assert(b.contents().contains_key(off2));
        let i2 = choose|i2: ComponentId| #[trigger] sits_at(before, index, i2, off2);
        assert(sits_at(after, index, i2, off2));
    }
}

// freeing a run of bytes and merging makes just these bytes free, and leaves a
// slot with room for as many bytes.
pub proof fn lemma_released(s: Seq<Slot>, off: int, size: int, bytes: int)
    requires
        slots::slots_fit(s, bytes),
        none_free(s, off, size),
        0 <= off,
        off % 16 == 0,
        0 < size,
        size % 16 == 0,
        off + size <= bytes,
    ensures
        ({
            let t = slots::coalesce(slots::insert_slot(s, Slot { off, size }));
            &&& slots::slots_fit(t, bytes)
            &&& slots::none_adjacent(t)
            &&& forall|p: int| #[trigger]
                slots::in_slots(t, p) == (slots::in_slots(s, p) || off <= p < off + size)
            &&& slots::first_fit(t, size, 0) < t.len()
        }),
{
    let slot = Slot { off, size };
    let u = slots::insert_slot(s, slot);
    let t = slots::coalesce(u);
    lemma_none_free_apart(s, off, size, bytes);
    slots::lemma_slot_position(s, off, size, bytes, 0);
    let p = slots::slot_position(s, off, 0);
    slots::lemma_insert_fits(s, p, slot, bytes);
    slots::lemma_coalesce(u, bytes);
    assert forall|q: int| #[trigger]
        slots::in_slots(t, q) == (slots::in_slots(s, q) || off <= q < off + size) by {
        slots::lemma_insert_covers(s, p, slot, q);
    }
    assert(slots::in_slots(t, off));
    let j = choose|j: int| 0 <= j < t.len() && (#[trigger] t[j]).off <= off < t[j].off + t[j].size;
    let end = t[j].off + t[j].size;
    if end < off + size {
        assert(slots::in_slots(t, end));
        let k = choose|k: int|
            0 <= k < t.len() && (#[trigger] t[k]).off <= end < t[k].off + t[k].size;
        if k < j {
            assert(t[k].off + t[k].size <= t[j].off);
        } else if k > j + 1 {
            assert(t[j + 1].off + t[j + 1].size <= t[k].off);
            assert(end <= t[j + 1].off);
        }
        assert(t[j].off + t[j].size != t[j + 1].off);
        assert(false);
    }
    lemma_first_fit(t, size, j, 0);
}

// a slot that is large enough is not passed over.
pub proof fn lemma_first_fit(s: Seq<Slot>, need: int, j: int, i: int)
    requires
        0 <= i <= j < s.len(),
        need <= s[j].size,
    ensures
        i <= slots::first_fit(s, need, i) <= j,
    decreases j - i,
{
    if i < j && s[i].size < need {
        lemma_first_fit(s, need, j, i + 1);
    }
}

// the slot that is found is large enough.
pub proof fn lemma_first_fit_fits(s: Seq<Slot>, need: int, i: int)
    requires
        0 <= i <= s.len(),
    ensures
        i <= slots::first_fit(s, need, i) <= s.len(),
        slots::first_fit(s, need, i) < s.len() ==> need <= s[slots::first_fit(s, need, i)].size,
    decreases s.len() - i,
{
    if i < s.len() && s[i].size < need {
        lemma_first_fit_fits(s, need, i + 1);
    }
}

} // verus!
