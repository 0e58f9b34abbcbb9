use bevy_rewind::component_index::ComponentId;
use bevy_rewind::history::batch::{InsertBatch, RemoveBatch};
use bevy_rewind::history::component::HistoryComponent;

#[derive(Clone, PartialEq, Eq, Debug)]
struct A(u16);

#[derive(Clone, PartialEq, Eq, Debug)]
struct B;

#[derive(Clone, PartialEq, Eq, Debug)]
struct C(u8, u16);

#[derive(Clone, PartialEq, Eq, Debug)]
struct Byte(u8);

/// The value of any of the components
#[derive(Clone, PartialEq, Eq, Debug)]
enum Val {
    A(A),
    B(B),
    C(C),
    Byte(Byte),
}

const COMP_A: ComponentId = 0;
const COMP_B: ComponentId = 1;
const COMP_C: ComponentId = 2;
const COMP_BYTE: ComponentId = 3;

fn push_val<T>(batch: &mut InsertBatch<Val>, id: ComponentId, v: Val) {
    let comp = HistoryComponent::<fn(&Val, &Val) -> bool>::new::<T>();
    batch.push(id, &comp, v);
}

#[test]
fn insert_minimal_archetype_moves() {
    let mut batch = InsertBatch::new();
    push_val::<A>(&mut batch, COMP_A, Val::A(A(5)));
    push_val::<C>(&mut batch, COMP_C, Val::C(C(12, 2)));

    // Both values are inserted together.
    assert_eq!(vec![COMP_A, COMP_C], batch.ids);
    assert_eq!(vec![Val::A(A(5)), Val::C(C(12, 2))], batch.values);
    assert_eq!(vec![0, 2], batch.offsets);
    assert_eq!(2 + size_of::<C>(), batch.bytes);
}

#[test]
fn push_zero_sized_skips_data() {
    let mut batch = InsertBatch::new();
    assert!(batch.is_empty());

    push_val::<B>(&mut batch, COMP_B, Val::B(B));
    assert!(!batch.is_empty());
    assert!(batch.values.is_empty());
    assert!(batch.offsets.is_empty());
    assert_eq!(0, batch.bytes);
}

#[test]
fn push_unaligned_component_pads() {
    let mut batch = InsertBatch::new();
    push_val::<Byte>(&mut batch, COMP_BYTE, Val::Byte(Byte(9)));
    push_val::<A>(&mut batch, COMP_A, Val::A(A(7)));

    assert_eq!(vec![COMP_BYTE, COMP_A], batch.ids);
    assert_eq!(vec![Val::Byte(Byte(9)), Val::A(A(7))], batch.values);
    assert_eq!(vec![0, 2], batch.offsets);
    assert_eq!(4, batch.bytes);
}

#[test]
fn cleared_batches_start_over() {
    let mut batch = InsertBatch::new();
    push_val::<Byte>(&mut batch, COMP_BYTE, Val::Byte(Byte(9)));
    batch.clear();
    assert!(batch.is_empty());
    push_val::<A>(&mut batch, COMP_A, Val::A(A(7)));
    assert_eq!(vec![COMP_A], batch.ids);
    assert_eq!(vec![0], batch.offsets);
    assert_eq!(2, batch.bytes);

    let mut removes = RemoveBatch::new();
    assert!(removes.is_empty());
    removes.push(COMP_C);
    assert!(!removes.is_empty());
    removes.clear();
    assert!(removes.is_empty());
}

#[test]
fn values_stay_apart() {
    let mut batch = InsertBatch::new();
    for i in 0..6 {
        push_val::<Byte>(&mut batch, COMP_BYTE, Val::Byte(Byte(i)));
        push_val::<u64>(&mut batch, COMP_A, Val::A(A(i as u16)));
        push_val::<C>(&mut batch, COMP_C, Val::C(C(i, i as u16)));
    }
    let layouts = [(1, 1), (8, 8), (4, 2)];
    let mut end = 0;
    for (i, &offset) in batch.offsets.iter().enumerate() {
        let (size, align) = layouts[i % 3];
        assert!(offset >= end);
        assert_eq!(0, offset % align);
        end = offset + size;
    }
    assert_eq!(end, batch.bytes);
}
