//! Loading the state of resources.
use crate::history::tick_data::TickData;
use crate::predicted_resource;
use crate::predicted_resource::ResourceHistory;
use crate::rollback::LoadFrom;

use vstd::prelude::*;

verus! {

/// What is done to a resource when a tick is loaded.
#[derive(Debug)]
pub enum ResourceLoad<T> {
    /// It is set to this value, or inserted with it
    Assign(T),
    /// It is removed
    Remove,
}

/// Load a resource at a tick. What was predicted for later ticks is dropped; where nothing is
/// known of the tick, the first value is kept.
pub fn load_and_clear_resource_prediction<T: Clone>(
    hist: &mut ResourceHistory<T>,
    previous_tick: &LoadFrom,
) -> (r: ResourceLoad<T>)
    requires
        predicted_resource::stored_at(
            old(hist).list@,
            old(hist).last_tick,
            previous_tick.0.0,
        ) is Missing ==> {
            &&& old(hist).list@.len() <= old(hist).last_tick + 1
            &&& old(hist).list@.len() <= u32::MAX
        },
    ensures
        ({
            let t = previous_tick.0.0;
            let list = old(hist).list@;
            let last = old(hist).last_tick;
            match predicted_resource::stored_at(list, last, t) {
                TickData::Value(value) => {
                    &&& r matches ResourceLoad::Assign(copy) && cloned(value, copy)
                    &&& kept_until(list, last, *final(hist), t)
                },
                TickData::Removed => {
                    &&& r is Remove
                    &&& kept_until(list, last, *final(hist), t)
                },
                TickData::Missing => {
                    &&& r is Remove
                    &&& final(hist).list@ == if list.len() <= 1 {
                        list
                    } else {
                        list.take(1)
                    }
                    &&& final(hist).last_tick == if list.len() <= 1 {
                        last as int
                    } else {
                        last - (list.len() - 1)
                    }
                },
            }
        }),
{
    let r = match hist.get(previous_tick.0) {
        TickData::Value(value) => ResourceLoad::Assign(value.clone()),
        TickData::Removed => ResourceLoad::Remove,
        TickData::Missing => {
            hist.keep_one();
            return ResourceLoad::Remove;
        },
    };
    hist.clean(previous_tick.0);
    r
}

/// What is left of a list of what was stored up to a tick.
pub open spec fn kept_until<T>(
    list: Seq<TickData<T>>,
    last: u32,
    hist: ResourceHistory<T>,
    t: u32,
) -> bool {
    let ago = last - t;
    &&& hist.list@ == if ago <= 0 {
        list
    } else if ago >= list.len() {
        Seq::empty()
    } else {
        list.take(list.len() - ago)
    }
    &&& hist.last_tick == if ago <= 0 {
        last
    } else {
        t
    }
}

/// The value with which a resource that is absent is inserted again at a tick.
pub fn reinsert_predicted_resource<T: Clone>(
    is_present: bool,
    history: &ResourceHistory<T>,
    previous_tick: &LoadFrom,
) -> (r: Option<T>)
    ensures
        match predicted_resource::stored_at(history.list@, history.last_tick, previous_tick.0.0) {
            TickData::Value(value) if !is_present => r matches Some(copy) && cloned(value, copy),
            _ => r is None,
        },
{
    if is_present {
        return None;
    }
    match history.get(previous_tick.0) {
        TickData::Value(value) => Some(value.clone()),
        _ => None,
    }
}

/// Loading leaves what was stored of a resource up to the tick, and nothing after it.
pub proof fn stored_up_to_the_tick<T>(
    list: Seq<TickData<T>>,
    last: u32,
    hist: ResourceHistory<T>,
    t: u32,
    x: u32,
)
    requires
        kept_until(list, last, hist, t),
    ensures
        t >= last ==> hist.list@ == list && hist.last_tick == last,
        t < last ==> hist.last_tick == t,
        x > t || x > last ==> predicted_resource::stored_at(hist.list@, hist.last_tick, x) is Missing,
        t < last && x <= t && last - x < list.len() ==> predicted_resource::stored_at(
            hist.list@,
            hist.last_tick,
            x,
        ) == predicted_resource::stored_at(list, last, x),
{
}

/// A resource is only inserted again where it is absent and was stored with a value at exactly the tick,
/// and then with a clone of that value.
pub proof fn reinserted_as_stored<T: Clone>(
    history: &ResourceHistory<T>,
    from: &LoadFrom,
    present: Option<T>,
    absent: Option<T>,
)
    requires
        call_ensures(reinsert_predicted_resource::<T>, (true, history, from), present),
        call_ensures(reinsert_predicted_resource::<T>, (false, history, from), absent),
        from.0.0 <= history.last_tick,
        history.last_tick - from.0.0 < history.list@.len(),
    ensures
        ({
            let stored = history.list@[history.list@.len() - 1 - (history.last_tick - from.0.0)];
            &&& present is None
            &&& absent is Some <==> stored is Value
            &&& absent is Some ==> cloned(stored->Value_0, absent->0)
        }),
{
}

} // verus!
