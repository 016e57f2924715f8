//! The pluggable listener dispatch: listeners registered by event name; a
//! triggered event runs every listener registered under its name, and a
//! listener that answers with `false` is dropped from the registry.

use vstd::prelude::*;

verus! {

/// `ix` assigns each kept slot a strictly increasing source position of the
/// old list: the registry only ever keeps listeners in their original order.
/// The kept values themselves cannot be pinned to the old ones, because a
/// matching listener's own `callback` may mutate it, and the trait methods
/// carry no contracts.
pub open spec fn is_subseq_map(a_len: int, b_len: int, ix: Seq<int>) -> bool {
    &&& ix.len() == a_len
    &&& forall|k: int| 0 <= k < ix.len() ==> 0 <= #[trigger] ix[k] < b_len
    &&& forall|k: int| 0 <= k < ix.len() - 1 ==> #[trigger] ix[k] < ix[k + 1]
}

/// Something that can be dispatched: it names the channel it belongs to.
pub trait Event {
    fn name(&self) -> String;
}

/// A listener: it answers to a channel name; its callback may mutate the
/// event and itself, and keeps the listener alive by returning `true`.
pub trait EventListener {
    type Ev: Event;

    fn name(&self) -> String;

    fn callback(&mut self, event: &mut Self::Ev) -> bool;
}

/// The registry: every registered listener, in registration order.
pub struct Events<L: EventListener> {
    inner: Vec<L>,
}

impl<L: EventListener> Events<L> {
    /// Spec view of the registered listeners.
    pub closed spec fn listeners(&self) -> Seq<L> {
        self.inner@
    }

    /// An empty registry.
    pub fn new() -> (r: Events<L>)
        ensures
            r.listeners().len() == 0,
    {
        Events { inner: Vec::new() }
    }

    /// Register a listener.
    pub fn add(&mut self, event_listener: L)
        ensures
            final(self).listeners() == old(self).listeners().push(event_listener),
    {
        self.inner.push(event_listener)
    }

    /// Dispatch an event: every listener registered under the event's name
    /// runs; listeners answering `false` are dropped, all others stay, in
    /// their original order. The registry never grows during a dispatch; the
    /// kept listeners are an order-preserving selection of the old list.
    /// Which listeners match and answer depends on their own unspecified
    /// `name` and `callback` methods, so no more is promised of the choice.
    pub fn trigger(&mut self, event: &mut L::Ev)
        ensures
            final(self).listeners().len() <= old(self).listeners().len(),
            exists|ix: Seq<int>|
                is_subseq_map(
                    final(self).listeners().len() as int,
                    old(self).listeners().len() as int,
                    ix,
                ),
    {
        let key = event.name();
        let mut kept: Vec<L> = Vec::new();
        let ghost mut ixs: Seq<int> = Seq::empty();
        let mut remaining: Vec<L> = Vec::new();
        core::mem::swap(&mut self.inner, &mut remaining);
        let ghost r0 = remaining@;
        let n = remaining.len();
        let mut i: usize = 0;
        while i < n
            invariant
                i <= n,
                n == r0.len(),
                remaining@ =~= r0.subrange(i as int, n as int),
                kept@.len() <= i,
                ixs.len() == kept@.len(),
                forall|k: int| 0 <= k < ixs.len() ==> 0 <= #[trigger] ixs[k] < i,
                forall|k: int| 0 <= k < ixs.len() - 1 ==> #[trigger] ixs[k] < ixs[k + 1],
            decreases n - i,
        {
            let mut listener = remaining.remove(0);
            proof {
                assert(listener == r0[i as int]);
                assert(remaining@ =~= r0.subrange((i + 1) as int, n as int));
            }
            let alive = if listener.name() == key {
                listener.callback(event)
            } else {
                true
            };
            if alive {
                kept.push(listener);
                proof {
                    ixs = ixs.push(i as int);
                }
            }
            i = i + 1;
        }
        self.inner = kept;
        proof {
            assert(is_subseq_map(self.listeners().len() as int, r0.len() as int, ixs));
        }
    }
}

} // verus!
