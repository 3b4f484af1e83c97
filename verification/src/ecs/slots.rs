//! Free lists: the parts of a block that hold no data.

use vstd::prelude::*;

verus! {

/// A free part of a block, in bytes from the start of the block's data.
pub struct Slot {
    pub off: int,
    pub size: int,
}

/// The first slot of `s`, from index `i` on, with room for `need` bytes; the
/// length of `s` if there is none.
pub open spec fn first_fit(s: Seq<Slot>, need: int, i: int) -> int
    decreases s.len() - i,
{
    if i >= s.len() {
        s.len() as int
    } else if s[i].size >= need {
        i
    } else {
        first_fit(s, need, i + 1)
    }
}

/// What is left of `s` once the first `need` bytes of slot `i` are in use.
pub open spec fn take_from_slot(s: Seq<Slot>, i: int, need: int) -> Seq<Slot> {
    if s[i].size == need {
        s.remove(i)
    } else {
        s.update(i, Slot { off: s[i].off + need, size: s[i].size - need })
    }
}

/// The first index of `s`, from `i` on, whose slot lies past `off`; the length
/// of `s` if there is none.
pub open spec fn slot_position(s: Seq<Slot>, off: int, i: int) -> int
    decreases s.len() - i,
{
    if i >= s.len() {
        s.len() as int
    } else if s[i].off > off {
        i
    } else {
        slot_position(s, off, i + 1)
    }
}

/// `s` with one more slot, at its place by offset.
pub open spec fn insert_slot(s: Seq<Slot>, slot: Slot) -> Seq<Slot> {
    s.insert(slot_position(s, slot.off, 0), slot)
}

/// `s` with each run of adjacent slots made into one slot. Slots are adjacent
/// if the offset of one plus its size is the offset of the next.
pub open spec fn coalesce(s: Seq<Slot>) -> Seq<Slot>
    decreases s.len(),
{
    if s.len() == 0 {
        s
    } else {
        let init = coalesce(s.drop_last());
        let last = s.last();
        if init.len() > 0 && init.last().off + init.last().size == last.off {
            init.drop_last().push(
                Slot { off: init.last().off, size: init.last().size + last.size },
            )
        } else {
            init.push(last)
        }
    }
}

/// The slots are ordered, disjoint, aligned, not empty, and within `bytes`.
pub open spec fn slots_fit(s: Seq<Slot>, bytes: int) -> bool {
    &&& forall|i: int|
        0 <= i < s.len() ==> {
            &&& 0 <= (#[trigger] s[i]).off
            &&& s[i].off % 16 == 0
            &&& 0 < s[i].size
            &&& s[i].size % 16 == 0
            &&& s[i].off + s[i].size <= bytes
        }
    &&& forall|i: int, j: int|
        0 <= i < j < s.len() ==> (#[trigger] s[i]).off + s[i].size <= (#[trigger] s[j]).off
}

/// Whether some slot of `s` holds the byte at `off`.
pub open spec fn in_slots(s: Seq<Slot>, off: int) -> bool {
    exists|i: int| 0 <= i < s.len() && (#[trigger] s[i]).off <= off < s[i].off + s[i].size
}

/// No slot of `s` shares a byte with the `size` bytes at `off`.
pub open spec fn apart_from(s: Seq<Slot>, off: int, size: int) -> bool {
    forall|i: int|
        0 <= i < s.len() ==> (#[trigger] s[i]).off + s[i].size <= off || off + size <= s[i].off
}

/// `s` with slot `i` and slot `i + 1` made into one.
pub open spec fn join_slots(s: Seq<Slot>, i: int) -> Seq<Slot> {
    s.remove(i + 1).update(i, Slot { off: s[i].off, size: s[i].size + s[i + 1].size })
}

// joining adjacent slots keeps the list in order.
pub proof fn lemma_join_fits(s: Seq<Slot>, i: int, bytes: int)
    requires
        slots_fit(s, bytes),
        0 <= i < s.len() - 1,
        s[i].off + s[i].size == s[i + 1].off,
    ensures
        slots_fit(join_slots(s, i), bytes),
{
    let t = join_slots(s, i);
    assert forall|j: int| 0 <= j < t.len() implies {
        &&& 0 <= (#[trigger] t[j]).off
        &&& t[j].off % 16 == 0
        &&& 0 < t[j].size
        &&& t[j].size % 16 == 0
        &&& t[j].off + t[j].size <= bytes
    } by {
        let a = if j > i { j + 1 } else { j };
        assert(s[a].off == t[j].off);
        assert(s[i + 1].off + s[i + 1].size <= bytes);
    }
    assert forall|j: int, k: int| 0 <= j < k < t.len() implies (#[trigger] t[j]).off + t[j].size <= (
    #[trigger] t[k]).off by {
        let a = if j >= i { j + 1 } else { j };
        let b = if k > i { k + 1 } else { k };
        assert(s[a].off + s[a].size <= s[b].off);
        assert(t[j].off + t[j].size == s[a].off + s[a].size);
    }
}

// joining adjacent slots covers the same bytes.
pub proof fn lemma_join_covers(s: Seq<Slot>, i: int, off: int)
    requires
        0 <= i < s.len() - 1,
        0 < s[i].size,
        0 < s[i + 1].size,
        s[i].off + s[i].size == s[i + 1].off,
    ensures
        in_slots(join_slots(s, i), off) == in_slots(s, off),
{
    let t = join_slots(s, i);
    if in_slots(t, off) {
        let j = choose|j: int| 0 <= j < t.len() && (#[trigger] t[j]).off <= off < t[j].off + t[j].size;
        let a = if j > i || (j == i && off >= s[i + 1].off) { j + 1 } else { j };
        lemma_in_slot(s, a, off - s[a].off);
    }
    if in_slots(s, off) {
        let j = choose|j: int| 0 <= j < s.len() && (#[trigger] s[j]).off <= off < s[j].off + s[j].size;
        let a = if j > i { j - 1 } else { j };
        assert(t[a].off <= off < t[a].off + t[a].size);
    }
}

// a slot apart from the others, put at its place, keeps the list in order.
pub proof fn lemma_insert_fits(s: Seq<Slot>, i: int, slot: Slot, bytes: int)
    requires
        slots_fit(s, bytes),
        0 <= i <= s.len(),
        i > 0 ==> s[i - 1].off + s[i - 1].size <= slot.off,
        i < s.len() ==> slot.off + slot.size <= s[i].off,
        0 <= slot.off,
        slot.off % 16 == 0,
        0 < slot.size,
        slot.size % 16 == 0,
        slot.off + slot.size <= bytes,
    ensures
        slots_fit(s.insert(i, slot), bytes),
{
    let t = s.insert(i, slot);
    assert forall|j: int, k: int| 0 <= j < k < t.len() implies (#[trigger] t[j]).off + t[j].size <= (
    #[trigger] t[k]).off by {
        let a = if j > i { j - 1 } else { j };
        let b = if k > i { k - 1 } else { k };
        if j == i {
            if b > i {
                assert(s[i].off + s[i].size <= s[b].off);
            }
        } else if k == i {
            if a < i - 1 {
                assert(s[a].off + s[a].size <= s[i - 1].off);
            }
        } else {
            assert(t[j] == s[a] && t[k] == s[b]);
        }
    }
}

// using up part of a slot frees no byte.
pub proof fn lemma_take_covers_less(s: Seq<Slot>, i: int, need: int, off: int)
    requires
        0 <= i < s.len(),
        0 <= need <= s[i].size,
        in_slots(take_from_slot(s, i, need), off),
    ensures
        in_slots(s, off),
{
    let t = take_from_slot(s, i, need);
    let j = choose|j: int| 0 <= j < t.len() && (#[trigger] t[j]).off <= off < t[j].off + t[j].size;
    let m = if need == s[i].size && j >= i { j + 1 } else { j };
    assert(s[m].off <= off < s[m].off + s[m].size);
}

// a byte of a slot.
pub proof fn lemma_in_slot(s: Seq<Slot>, i: int, delta: int)
    requires
        0 <= i < s.len(),
        0 <= delta < s[i].size,
    ensures
        in_slots(s, s[i].off + delta),
{
    assert(s[i].off <= s[i].off + delta < s[i].off + s[i].size);
}

// two slots have no cell in common.
pub proof fn lemma_distinct_cells(s: Seq<Slot>, a: int, b: int, delta: int, bytes: int)
    requires
        slots_fit(s, bytes),
        0 <= a < s.len(),
        0 <= b < s.len(),
        a != b,
        0 <= delta,
        delta == 0 || delta < s[b].size,
        delta % 16 == 0,
    ensures
        s[a].off / 16 != (s[b].off + delta) / 16,
        s[a].off / 16 != s[b].off / 16,
{
    let lo = if a < b { a } else { b };
    let hi = if a < b { b } else { a };
    assert(s[lo].off + s[lo].size <= s[hi].off);
}

// using up part of a slot keeps the list in order.
pub proof fn lemma_take_fits(s: Seq<Slot>, i: int, need: int, bytes: int)
    requires
        slots_fit(s, bytes),
        0 <= i < s.len(),
        0 <= need <= s[i].size,
        need % 16 == 0,
    ensures
        slots_fit(take_from_slot(s, i, need), bytes),
{
    let t = take_from_slot(s, i, need);
    if need == s[i].size {
        assert forall|j: int, k: int| 0 <= j < k < t.len() implies (#[trigger] t[j]).off + t[j].size <= (
        #[trigger] t[k]).off by {
            let a = if j >= i { j + 1 } else { j };
            let b = if k >= i { k + 1 } else { k };
            assert(t[j] == s[a] && t[k] == s[b]);
        }
    }
}

/// No slot ends where the next one starts.
pub open spec fn none_adjacent(s: Seq<Slot>) -> bool {
    forall|i: int, j: int|
        0 <= i < s.len() && j == i + 1 && j < s.len() ==> (#[trigger] s[i]).off + s[i].size != (
        #[trigger] s[j]).off
}

// merging keeps the list in order, leaves no adjacent slots, keeps the first
// and the last byte in place, and covers the same bytes.
pub proof fn lemma_coalesce(s: Seq<Slot>, bytes: int)
    requires
        slots_fit(s, bytes),
    ensures
        slots_fit(coalesce(s), bytes),
        none_adjacent(coalesce(s)),
        coalesce(s).len() == 0 <==> s.len() == 0,
        s.len() > 0 ==> coalesce(s).last().off + coalesce(s).last().size == s.last().off
            + s.last().size,
        forall|off: int| in_slots(coalesce(s), off) == in_slots(s, off),
    decreases s.len(),
{
    if s.len() > 0 {
        let init = s.drop_last();
        let last = s.last();
        let c = coalesce(init);
        let n = c.len() as int;
        assert(slots_fit(init, bytes));
        lemma_coalesce(init, bytes);
        if n > 0 {
            assert(init[init.len() - 1].off + init[init.len() - 1].size <= last.off);
            assert(c[n - 1].off + c[n - 1].size <= last.off);
        }
        let pushed = c.push(last);
        lemma_push_fits(c, last, bytes);
        assert forall|off: int| in_slots(pushed, off) == in_slots(s, off) by {
            lemma_push_covers(c, last, off);
            lemma_push_covers(init, last, off);
            assert(init.push(last) =~= s);
        }
        if n > 0 && c.last().off + c.last().size == last.off {
            lemma_join_fits(pushed, n - 1, bytes);
            let joined = join_slots(pushed, n - 1);
            assert(coalesce(s) =~= joined);
            assert forall|off: int| in_slots(joined, off) == in_slots(s, off) by {
                lemma_join_covers(pushed, n - 1, off);
            }
            assert forall|i: int, j: int|
                0 <= i < joined.len() && j == i + 1 && j < joined.len() implies (#[trigger] joined[i]).off
                + joined[i].size != (#[trigger] joined[j]).off by {
                assert(c[i].off + c[i].size != c[j].off);
            }
        } else {
            assert(coalesce(s) =~= pushed);
        }
    }
}

// a slot past all others, put at the end, keeps the list in order.
pub proof fn lemma_push_fits(s: Seq<Slot>, slot: Slot, bytes: int)
    requires
        slots_fit(s, bytes),
        s.len() > 0 ==> s.last().off + s.last().size <= slot.off,
        0 <= slot.off,
        slot.off % 16 == 0,
        0 < slot.size,
        slot.size % 16 == 0,
        slot.off + slot.size <= bytes,
    ensures
        slots_fit(s.push(slot), bytes),
{
    lemma_insert_fits(s, s.len() as int, slot, bytes);
    assert(s.insert(s.len() as int, slot) =~= s.push(slot));
}

// the bytes that a list with one more slot covers.
pub proof fn lemma_push_covers(s: Seq<Slot>, slot: Slot, off: int)
    ensures
        in_slots(s.push(slot), off) == (in_slots(s, off) || slot.off <= off < slot.off + slot.size),
{
    let t = s.push(slot);
    if in_slots(t, off) {
        let j = choose|j: int| 0 <= j < t.len() && (#[trigger] t[j]).off <= off < t[j].off + t[j].size;
        if j < s.len() {
            assert(s[j].off <= off < s[j].off + s[j].size);
        }
    }
    if in_slots(s, off) {
        let j = choose|j: int| 0 <= j < s.len() && (#[trigger] s[j]).off <= off < s[j].off + s[j].size;
        assert(t[j].off <= off < t[j].off + t[j].size);
    }
    if slot.off <= off < slot.off + slot.size {
        assert(t[s.len() as int].off <= off < t[s.len() as int].off + t[s.len() as int].size);
    }
}

/// Merging adjacent slots frees no byte and takes none.
pub proof fn law_merging_keeps_the_free_bytes(s: Seq<Slot>, bytes: int, off: int)
    requires
        slots_fit(s, bytes),
    ensures
        in_slots(coalesce(s), off) == in_slots(s, off),
{
    lemma_coalesce(s, bytes);
}

/// After merging no two slots are adjacent, so that merging again changes nothing.
pub proof fn law_merging_is_complete(s: Seq<Slot>, bytes: int)
    requires
        slots_fit(s, bytes),
    ensures
        none_adjacent(coalesce(s)),
        coalesce(coalesce(s)) == coalesce(s),
{
    lemma_coalesce(s, bytes);
    lemma_coalesce_idle(coalesce(s));
}

// a list without adjacent slots is its own merge.
pub proof fn lemma_coalesce_idle(s: Seq<Slot>)
    requires
        none_adjacent(s),
    ensures
        coalesce(s) == s,
    decreases s.len(),
{
    if s.len() > 0 {
        let init = s.drop_last();
        assert(none_adjacent(init)) by {
            assert forall|i: int, j: int|
                0 <= i < init.len() && j == i + 1 && j < init.len() implies (#[trigger] init[i]).off
                + init[i].size != (#[trigger] init[j]).off by {
                assert(s[i].off + s[i].size != s[j].off);
            }
        }
        lemma_coalesce_idle(init);
        if init.len() > 0 {
            let n = s.len() as int;
            assert(s[n - 2].off + s[n - 2].size != s[n - 1].off);
        }
        assert(coalesce(s) =~= s);
    }
}

// where a list starts, and that its first slot is as long as it can be.
proof fn lemma_first_slot(s: Seq<Slot>, t: Seq<Slot>, bytes: int)
    requires
        slots_fit(s, bytes),
        slots_fit(t, bytes),
        none_adjacent(s),
        none_adjacent(t),
        forall|off: int| in_slots(s, off) == in_slots(t, off),
        s.len() > 0,
    ensures
        t.len() > 0,
        t[0].off <= s[0].off,
        s[0].off == t[0].off ==> t[0].size >= s[0].size,
{
    lemma_in_slot(s, 0, 0);
    assert(in_slots(t, s[0].off));
    let j = choose|j: int|
        0 <= j < t.len() && (#[trigger] t[j]).off <= s[0].off < t[j].off + t[j].size;
    assert(j > 0 ==> t[0].off + t[0].size <= t[j].off);
    if s[0].off == t[0].off && t[0].size < s[0].size {
        let end = t[0].off + t[0].size;
        lemma_in_slot(s, 0, t[0].size);
        assert(in_slots(t, end));
        let m = choose|m: int| 0 <= m < t.len() && (#[trigger] t[m]).off <= end < t[m].off + t[m].size;
        assert(m > 0);
        assert(t[0].off + t[0].size != t[1].off);
        assert(t[0].off + t[0].size <= t[1].off);
        if m > 1 {
            assert(t[1].off + t[1].size <= t[m].off);
        }
        assert(false);
    }
}

// the bytes that a list covers past its first slot.
proof fn lemma_rest_covers(s: Seq<Slot>, bytes: int, off: int)
    requires
        slots_fit(s, bytes),
        s.len() > 0,
    ensures
        in_slots(s.drop_first(), off) == (in_slots(s, off) && s[0].off + s[0].size <= off),
{
    let t = s.drop_first();
    if in_slots(t, off) {
        let j = choose|j: int| 0 <= j < t.len() && (#[trigger] t[j]).off <= off < t[j].off + t[j].size;
        assert(s[j + 1].off <= off < s[j + 1].off + s[j + 1].size);
        assert(s[0].off + s[0].size <= s[j + 1].off);
    }
    if in_slots(s, off) && s[0].off + s[0].size <= off {
        let j = choose|j: int| 0 <= j < s.len() && (#[trigger] s[j]).off <= off < s[j].off + s[j].size;
        assert(t[j - 1].off <= off < t[j - 1].off + t[j - 1].size);
    }
}

/// Merged lists that cover the same bytes are the same list.
pub proof fn lemma_merged_unique(s: Seq<Slot>, t: Seq<Slot>, bytes: int)
    requires
        slots_fit(s, bytes),
        slots_fit(t, bytes),
        none_adjacent(s),
        none_adjacent(t),
        forall|off: int| in_slots(s, off) == in_slots(t, off),
    ensures
        s == t,
    decreases s.len(),
{
    if s.len() > 0 {
        lemma_first_slot(s, t, bytes);
    }
    if t.len() > 0 {
        lemma_first_slot(t, s, bytes);
    }
    if s.len() > 0 {
        assert(s[0] == t[0]);
        let a = s.drop_first();
        let b = t.drop_first();
        assert forall|off: int| in_slots(a, off) == in_slots(b, off) by {
            lemma_rest_covers(s, bytes, off);
            lemma_rest_covers(t, bytes, off);
        }
        assert forall|i: int, j: int|
            0 <= i < a.len() && j == i + 1 && j < a.len() implies (#[trigger] a[i]).off + a[i].size != (
        #[trigger] a[j]).off by {
            assert(s[i + 1].off + s[i + 1].size != s[j + 1].off);
        }
        assert forall|i: int, j: int|
            0 <= i < b.len() && j == i + 1 && j < b.len() implies (#[trigger] b[i]).off + b[i].size != (
        #[trigger] b[j]).off by {
            assert(t[i + 1].off + t[i + 1].size != t[j + 1].off);
        }
        lemma_merged_unique(a, b, bytes);
        assert(s =~= seq![s[0]] + a);
        assert(t =~= seq![t[0]] + b);
    } else {
        assert(s =~= t);
    }
}

// the place of a slot that is apart from all others.
pub proof fn lemma_slot_position(s: Seq<Slot>, off: int, size: int, bytes: int, i: int)
    requires
        slots_fit(s, bytes),
        apart_from(s, off, size),
        0 < size,
        0 <= i <= s.len(),
        forall|j: int| 0 <= j < i ==> (#[trigger] s[j]).off <= off,
    ensures
        ({
            let p = slot_position(s, off, i);
            &&& i <= p <= s.len()
            &&& p > 0 ==> s[p - 1].off + s[p - 1].size <= off
            &&& p < s.len() ==> off + size <= s[p].off
        }),
    decreases s.len() - i,
{
    if i < s.len() && s[i].off <= off {
        lemma_slot_position(s, off, size, bytes, i + 1);
    }
}

// the bytes that a list covers once a slot is inserted.
pub proof fn lemma_insert_covers(s: Seq<Slot>, i: int, slot: Slot, off: int)
    requires
        0 <= i <= s.len(),
    ensures
        in_slots(s.insert(i, slot), off) == (in_slots(s, off) || slot.off <= off < slot.off
            + slot.size),
{
    let t = s.insert(i, slot);
    assert(t[i] == slot);
    if in_slots(t, off) {
        let j = choose|j: int| 0 <= j < t.len() && (#[trigger] t[j]).off <= off < t[j].off + t[j].size;
        if j != i {
            let a = if j > i { j - 1 } else { j };
            assert(t[j] == s[a]);
            lemma_in_slot(s, a, off - s[a].off);
        }
    }
    if in_slots(s, off) {
        let j = choose|j: int| 0 <= j < s.len() && (#[trigger] s[j]).off <= off < s[j].off + s[j].size;
        let a = if j >= i { j + 1 } else { j };
        assert(t[a].off <= off < t[a].off + t[a].size);
    }
}

// the bytes that a list covers once the first bytes of a slot are in use.
pub proof fn lemma_take_covers(s: Seq<Slot>, i: int, need: int, bytes: int, off: int)
    requires
        slots_fit(s, bytes),
        0 <= i < s.len(),
        0 <= need <= s[i].size,
    ensures
        in_slots(take_from_slot(s, i, need), off) == (in_slots(s, off) && !(s[i].off <= off
            < s[i].off + need)),
{
    let t = take_from_slot(s, i, need);
    if in_slots(t, off) {
        lemma_take_covers_less(s, i, need, off);
        let j = choose|j: int| 0 <= j < t.len() && (#[trigger] t[j]).off <= off < t[j].off + t[j].size;
        let a = if need == s[i].size && j >= i { j + 1 } else { j };
        if a < i {
            assert(s[a].off + s[a].size <= s[i].off);
        } else if a > i {
            assert(s[i].off + s[i].size <= s[a].off);
        }
    }
    if in_slots(s, off) && !(s[i].off <= off < s[i].off + need) {
        let j = choose|j: int| 0 <= j < s.len() && (#[trigger] s[j]).off <= off < s[j].off + s[j].size;
        let a = if need == s[i].size && j > i { j - 1 } else { j };
        assert(t[a].off <= off < t[a].off + t[a].size);
    }
}

// the part of a slot that came into use is apart from what is left.
pub proof fn lemma_taken_apart(s: Seq<Slot>, i: int, need: int, bytes: int)
    requires
        slots_fit(s, bytes),
        0 <= i < s.len(),
        0 <= need <= s[i].size,
    ensures
        apart_from(take_from_slot(s, i, need), s[i].off, need),
{
    let t = take_from_slot(s, i, need);
    assert forall|j: int| 0 <= j < t.len() implies (#[trigger] t[j]).off + t[j].size <= s[i].off
        || s[i].off + need <= t[j].off by {
        let a = if need == s[i].size && j >= i { j + 1 } else { j };
        if a < i {
            assert(s[a].off + s[a].size <= s[i].off);
        } else if a > i {
            assert(s[i].off + s[i].size <= s[a].off);
        }
    }
}

/// Memory that is released is merged with the free memory around it: taking
/// bytes out of a merged free list, then freeing them and merging, gives the
/// same free list.
pub proof fn law_release_undoes_take(s: Seq<Slot>, i: int, need: int, bytes: int)
    requires
        slots_fit(s, bytes),
        none_adjacent(s),
        0 <= i < s.len(),
        0 < need <= s[i].size,
        need % 16 == 0,
    ensures
        coalesce(insert_slot(take_from_slot(s, i, need), Slot { off: s[i].off, size: need })) == s,
{
    let t = take_from_slot(s, i, need);
    let slot = Slot { off: s[i].off, size: need };
    lemma_take_fits(s, i, need, bytes);
    lemma_taken_apart(s, i, need, bytes);
    lemma_slot_position(t, slot.off, need, bytes, 0);
    let p = slot_position(t, slot.off, 0);
    lemma_insert_fits(t, p, slot, bytes);
    let u = insert_slot(t, slot);
    lemma_coalesce(u, bytes);
    assert forall|off: int| in_slots(coalesce(u), off) == in_slots(s, off) by {
        lemma_insert_covers(t, p, slot, off);
        lemma_take_covers(s, i, need, bytes, off);
        if slot.off <= off < slot.off + need {
            lemma_in_slot(s, i, off - s[i].off);
        }
    }
    lemma_merged_unique(coalesce(u), s, bytes);
}

/// A byte is free if some slot reaches from at most there to past it.
pub proof fn law_free_bytes_are_in_a_slot(s: Seq<Slot>, off: int)
    ensures
        forall|i: int|
            0 <= i < s.len() && (#[trigger] s[i]).off <= off < s[i].off + s[i].size ==> in_slots(
                s,
                off,
            ),
        (forall|i: int|
            0 <= i < s.len() ==> off < (#[trigger] s[i]).off || s[i].off + s[i].size <= off)
            ==> !in_slots(s, off),
{
}

/// The first fit is large enough, and the slots before it are not; without one, no slot is.
pub proof fn law_first_fit_is_the_first(s: Seq<Slot>, need: int)
    ensures
        ({
            let i = first_fit(s, need, 0);
            &&& 0 <= i <= s.len()
            &&& i < s.len() ==> s[i].size >= need
            &&& forall|j: int| 0 <= j < i ==> (#[trigger] s[j]).size < need
        }),
{
    lemma_first_fit_from(s, need, 0);
}

// the first fit from some slot on.
proof fn lemma_first_fit_from(s: Seq<Slot>, need: int, from: int)
    requires
        0 <= from <= s.len(),
    ensures
        ({
            let i = first_fit(s, need, from);
            &&& from <= i <= s.len()
            &&& i < s.len() ==> s[i].size >= need
            &&& forall|j: int| from <= j < i ==> (#[trigger] s[j]).size < need
        }),
    decreases s.len() - from,
{
    if from < s.len() && s[from].size < need {
        lemma_first_fit_from(s, need, from + 1);
    }
}

} // verus!
