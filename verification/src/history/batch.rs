//! Components that are inserted or removed together.
use super::component::HistoryComponent;
use crate::component_index::ComponentId;
use crate::layout;
use crate::layout::Layout;

use vstd::prelude::*;

verus! {

/// Where the bytes of items end that are laid out one after the other, each at a multiple of its
/// alignment.
pub open spec fn end_of(layouts: Seq<Layout>) -> int
    decreases layouts.len(),
{
    if layouts.len() == 0 {
        0
    } else {
        start_after(end_of(layouts.drop_last()), layouts.last()) + layouts.last().size
    }
}

/// Where an item starts that is laid out after `end` bytes.
pub open spec fn start_after(end: int, item: Layout) -> int {
    end + layout::padding(end, item.align as int)
}

/// Where the bytes of each of the items start.
pub open spec fn offsets_of(layouts: Seq<Layout>) -> Seq<int>
    decreases layouts.len(),
{
    if layouts.len() == 0 {
        Seq::empty()
    } else {
        offsets_of(layouts.drop_last()).push(
            start_after(end_of(layouts.drop_last()), layouts.last()),
        )
    }
}

/// Components to insert into an entity in one go.
#[derive(Debug)]
pub struct InsertBatch<T> {
    /// The components
    pub ids: Vec<ComponentId>,
    /// Where the bytes of each value start; values without bytes have none
    pub offsets: Vec<usize>,
    /// The number of bytes of all values, with the padding between them
    pub bytes: usize,
    /// The values that have bytes
    pub values: Vec<T>,
}

impl<T> InsertBatch<T> {
    /// The offsets and the number of bytes are those of values of the given layouts.
    pub open spec fn laid_out(&self, layouts: Seq<Layout>) -> bool {
        &&& self.bytes == end_of(layouts)
        &&& self.offsets@.len() == layouts.len()
        &&& self.values@.len() == layouts.len()
        &&& forall|i: int|
            0 <= i < layouts.len() ==> #[trigger] self.offsets@[i] == offsets_of(layouts)[i]
    }

    pub fn new() -> (r: Self)
        ensures
            r.ids@ == Seq::<ComponentId>::empty(),
            r.values@ == Seq::<T>::empty(),
            r.laid_out(Seq::empty()),
    {
        InsertBatch {
            ids: Vec::with_capacity(128),
            offsets: Vec::with_capacity(128),
            bytes: 0,
            values: Vec::new(),
        }
    }

    pub fn is_empty(&self) -> (r: bool)
        ensures
            r == (self.ids@.len() == 0),
    {
        self.ids.len() == 0
    }

    /// Add a component. A value without bytes is not stored.
    pub fn push<W>(&mut self, comp_id: ComponentId, comp: &HistoryComponent<W>, value: T)
        requires
            comp.layout.align > 0,
            comp.layout.size > 0 ==> start_after(old(self).bytes as int, comp.layout)
                + comp.layout.size <= usize::MAX,
        ensures
            final(self).ids@ == old(self).ids@.push(comp_id),
            if comp.layout.size == 0 {
                &&& final(self).offsets@ == old(self).offsets@
                &&& final(self).bytes == old(self).bytes
                &&& final(self).values@ == old(self).values@
            } else {
                let start = start_after(old(self).bytes as int, comp.layout);
                &&& final(self).offsets@ == old(self).offsets@.push(start as usize)
                &&& final(self).bytes == start + comp.layout.size
                &&& final(self).values@ == old(self).values@.push(value)
            },
    {
        self.ids.push(comp_id);
        if comp.size() == 0 {
            return;
        }
        let align: usize = comp.layout().align();
        proof {
            padding_steps(self.bytes as int, align as int);
        }
        let extra_offset: usize = if self.bytes % align == 0 {
            0
        } else {
            align - (self.bytes % align)
        };
        let offset: usize = self.bytes + extra_offset;
        self.offsets.push(offset);
        self.bytes = offset + comp.size();
        self.values.push(value);
    }

    /// Pushing a value with bytes lays out one more item.
    pub proof fn pushed_layout(before: Self, after: Self, layouts: Seq<Layout>, item: Layout)
        requires
            before.laid_out(layouts),
            after.offsets@ == before.offsets@.push(
                start_after(before.bytes as int, item) as usize,
            ),
            0 <= start_after(before.bytes as int, item) <= usize::MAX,
            after.bytes == start_after(before.bytes as int, item) + item.size,
            after.values@.len() == before.values@.len() + 1,
        ensures
            after.laid_out(layouts.push(item)),
    {
        let all = layouts.push(item);
        assert(all.drop_last() =~= layouts);
        lengths(layouts);
        assert forall|i: int| 0 <= i < all.len() implies #[trigger] after.offsets@[i]
            == offsets_of(all)[i] by {
            if i < layouts.len() {
                assert(before.offsets@[i] == offsets_of(layouts)[i]);
            }
        }
    }

    pub fn clear(&mut self)
        ensures
            final(self).ids@ == Seq::<ComponentId>::empty(),
            final(self).values@ == Seq::<T>::empty(),
            final(self).laid_out(Seq::empty()),
    {
        self.ids.clear();
        self.offsets.clear();
        self.bytes = 0;
        self.values.clear();
    }
}

/// There is one offset for each item.
pub proof fn lengths(layouts: Seq<Layout>)
    ensures
        offsets_of(layouts).len() == layouts.len(),
    decreases layouts.len(),
{
    if layouts.len() > 0 {
        lengths(layouts.drop_last());
    }
}

/// The padding goes to the next multiple of the alignment.
pub proof fn padding_steps(size: int, align: int)
    requires
        0 <= size,
        0 < align,
    ensures
        layout::padding(size, align) == if size % align == 0 {
            0
        } else {
            align - size % align
        },
        0 <= layout::padding(size, align) < align,
        (size + layout::padding(size, align)) % align == 0,
{
    let m = size % align;
    if m == 0 {
        vstd::arithmetic::div_mod::lemma_mod_self_0(align);
    } else {
        vstd::arithmetic::div_mod::lemma_small_mod((align - m) as nat, align as nat);
        vstd::arithmetic::div_mod::lemma_fundamental_div_mod(size, align);
        let q = size / align;
        assert(size + (align - m) == align * (q + 1)) by (nonlinear_arith)
            requires
                size == align * q + m,
        ;
        vstd::arithmetic::mul::lemma_mul_is_commutative(align, q + 1);
        vstd::arithmetic::div_mod::lemma_mod_multiples_basic(q + 1, align);
    }
}

/// The room that items take at most: a little less than their alignment goes for padding.
pub open spec fn room(layouts: Seq<Layout>) -> int
    decreases layouts.len(),
{
    if layouts.len() == 0 {
        0
    } else {
        room(layouts.drop_last()) + layouts.last().size + layouts.last().align
    }
}

/// Items end within the room that they take.
pub proof fn end_within_room(layouts: Seq<Layout>)
    requires
        forall|i: int| 0 <= i < layouts.len() ==> (#[trigger] layouts[i]).align > 0,
    ensures
        0 <= end_of(layouts) <= room(layouts),
    decreases layouts.len(),
{
    if layouts.len() > 0 {
        let front = layouts.drop_last();
        assert forall|i: int| 0 <= i < front.len() implies (#[trigger] front[i]).align > 0 by {
            assert(layouts[i].align > 0);
        }
        end_within_room(front);
        assert(layouts[layouts.len() - 1].align > 0);
        padding_steps(end_of(front), layouts.last().align as int);
    }
}

/// In a batch every value starts at a multiple of its alignment, and the values follow each other
/// without overlap.
pub proof fn values_do_not_overlap(layouts: Seq<Layout>, i: int, j: int)
    requires
        forall|k: int| 0 <= k < layouts.len() ==> (#[trigger] layouts[k]).align > 0,
        0 <= i < j < layouts.len(),
    ensures
        offsets_of(layouts)[i] % (layouts[i].align as int) == 0,
        offsets_of(layouts)[j] % (layouts[j].align as int) == 0,
        offsets_of(layouts)[i] + layouts[i].size <= offsets_of(layouts)[j],
        offsets_of(layouts)[j] + layouts[j].size <= end_of(layouts),
    decreases layouts.len(),
{
    let front = layouts.drop_last();
    assert forall|k: int| 0 <= k < front.len() implies (#[trigger] front[k]).align > 0 by {
        assert(layouts[k].align > 0);
    }
    lengths(front);
    end_within_room(front);
    assert(layouts[layouts.len() - 1].align > 0);
    padding_steps(end_of(front), layouts.last().align as int);
    if j < front.len() {
        values_do_not_overlap(front, i, j);
    } else {
        ends_before(front, i);
    }
}

/// A value starts at a multiple of its alignment, and ends within the batch.
pub proof fn ends_before(layouts: Seq<Layout>, i: int)
    requires
        forall|k: int| 0 <= k < layouts.len() ==> (#[trigger] layouts[k]).align > 0,
        0 <= i < layouts.len(),
    ensures
        offsets_of(layouts)[i] % (layouts[i].align as int) == 0,
        offsets_of(layouts)[i] + layouts[i].size <= end_of(layouts),
    decreases layouts.len(),
{
    let front = layouts.drop_last();
    assert forall|k: int| 0 <= k < front.len() implies (#[trigger] front[k]).align > 0 by {
        assert(layouts[k].align > 0);
    }
    lengths(front);
    end_within_room(front);
    assert(layouts[layouts.len() - 1].align > 0);
    padding_steps(end_of(front), layouts.last().align as int);
    if i < front.len() {
        ends_before(front, i);
    }
}

/// Components to remove from an entity.
#[derive(Debug)]
pub struct RemoveBatch {
    pub ids: Vec<ComponentId>,
}

impl RemoveBatch {
    pub fn new() -> (r: Self)
        ensures
            r.ids@ == Seq::<ComponentId>::empty(),
    {
        RemoveBatch { ids: Vec::with_capacity(128) }
    }

    pub fn is_empty(&self) -> (r: bool)
        ensures
            r == (self.ids@.len() == 0),
    {
        self.ids.len() == 0
    }

    pub fn push(&mut self, comp_id: ComponentId)
        ensures
            final(self).ids@ == old(self).ids@.push(comp_id),
    {
        self.ids.push(comp_id);
    }

    pub fn clear(&mut self)
        ensures
            final(self).ids@ == Seq::<ComponentId>::empty(),
    {
        self.ids.clear();
    }
}

/// The values of a batch lie as close together as their alignments allow: the first one starts it, less
/// than its alignment lies before every other one, and the last one ends it.
pub proof fn values_lie_close(layouts: Seq<Layout>, i: int)
    requires
        forall|k: int| 0 <= k < layouts.len() ==> (#[trigger] layouts[k]).align > 0,
        0 <= i < layouts.len(),
    ensures
        offsets_of(layouts)[0] == 0,
        i > 0 ==> offsets_of(layouts)[i] - (offsets_of(layouts)[i - 1] + layouts[i - 1].size)
            < layouts[i].align,
        end_of(layouts) == offsets_of(layouts)[layouts.len() - 1] + layouts[layouts.len()
            - 1].size,
        end_of(Seq::<Layout>::empty()) == 0,
    decreases layouts.len(),
{
    let front = layouts.drop_last();
    assert forall|k: int| 0 <= k < front.len() implies (#[trigger] front[k]).align > 0 by {
        assert(layouts[k].align > 0);
    }
    lengths(front);
    end_within_room(front);
    assert(layouts[layouts.len() - 1].align > 0);
    padding_steps(end_of(front), layouts.last().align as int);
    if front.len() > 0 {
        if i < front.len() {
            values_lie_close(front, i);
        } else {
            values_lie_close(front, front.len() - 1);
        }
    } else {
        padding_steps(0, layouts.last().align as int);
        vstd::arithmetic::div_mod::lemma_small_mod(0, layouts.last().align as nat);
    }
}

} // verus!
