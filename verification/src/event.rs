//! A simple event bus: handlers registered by channel name, triggered with a
//! channel argument. The set of handler types is closed per bus, so dispatch
//! needs no dynamic typing.

use vstd::prelude::*;

verus! {

/// `ix` assigns each kept slot a strictly increasing source position of the
/// old list: a dispatch only ever keeps handlers in their original order.
/// The kept values themselves cannot be pinned to the old ones, because a
/// matching handler's own `trigger` may mutate it, and the trait methods
/// carry no contracts.
pub open spec fn kept_in_order(a_len: int, b_len: int, ix: Seq<int>) -> bool {
    &&& ix.len() == a_len
    &&& forall|k: int| 0 <= k < ix.len() ==> 0 <= #[trigger] ix[k] < b_len
    &&& forall|k: int| 0 <= k < ix.len() - 1 ==> #[trigger] ix[k] < ix[k + 1]
}

/// A channel marker: a name and the argument type carried on that channel.
pub trait EventArg {
    type Arg;

    fn name() -> String;
}

/// A handler: it answers to a channel name and reacts to that channel's
/// argument; a handler that answers `false` asks to be dropped from the bus.
pub trait Event {
    type Arg;

    fn name(&self) -> String;

    fn trigger(&mut self, arg: &Self::Arg) -> bool;
}

/// The bus: every registered handler, in registration order.
pub struct Events<E: Event> {
    inner: Vec<E>,
}

impl<E: Event> Events<E> {
    /// Spec view of the registered handlers.
    pub closed spec fn handlers(&self) -> Seq<E> {
        self.inner@
    }

    /// An empty bus.
    pub fn new() -> (r: Events<E>)
        ensures
            r.handlers().len() == 0,
    {
        Events { inner: Vec::new() }
    }

    /// Register a handler.
    pub fn add(&mut self, event: E)
        ensures
            final(self).handlers() == old(self).handlers().push(event),
    {
        self.inner.push(event)
    }

    /// Trigger a channel: every handler whose name matches the channel's
    /// name reacts to the argument, and one that answers `false` is dropped.
    /// Handlers under other names stay; order is preserved throughout.
    pub fn trigger<T: EventArg>(&mut self, arg: &E::Arg)
        ensures
            final(self).handlers().len() <= old(self).handlers().len(),
            exists|ix: Seq<int>|
                kept_in_order(
                    final(self).handlers().len() as int,
                    old(self).handlers().len() as int,
                    ix,
                ),
    {
        let key = T::name();
        let mut kept: Vec<E> = Vec::new();
        let ghost mut ixs: Seq<int> = Seq::empty();
        let mut remaining: Vec<E> = Vec::new();
        core::mem::swap(&mut self.inner, &mut remaining);
        let ghost r0 = remaining@;
        let n = remaining.len();
        let mut i: usize = 0;
        while i < n
            invariant
                i <= n,
                n == r0.len(),
                remaining@ =~= r0.subrange(i as int, n as int),
                kept@.len() <= i,
                ixs.len() == kept@.len(),
                forall|k: int| 0 <= k < ixs.len() ==> 0 <= #[trigger] ixs[k] < i,
                forall|k: int| 0 <= k < ixs.len() - 1 ==> #[trigger] ixs[k] < ixs[k + 1],
            decreases n - i,
        {
            let mut handler = remaining.remove(0);
            proof {
                assert(remaining@ =~= r0.subrange((i + 1) as int, n as int));
            }
            let alive = if handler.name() == key {
                handler.trigger(arg)
            } else {
                true
            };
            if alive {
                kept.push(handler);
                proof {
                    ixs = ixs.push(i as int);
                }
            }
            i = i + 1;
        }
        self.inner = kept;
        proof {
            assert(kept_in_order(self.handlers().len() as int, r0.len() as int, ixs));
        }
    }
}

} // verus!
