//! An entity's view geometry: named layers of renderable boxes and of plain
//! hit boxes, in insertion order with unique layer names. Flattening across
//! layers yields the full renderable or collidable set.

use vstd::prelude::*;
use crate::rect::Rect;
use crate::render::Texture;

verus! {

/// Named layers of renderable and collidable local-space boxes.
#[derive(Debug, Clone)]
pub struct EnityView {
    pub viewboxes: Vec<(String, Vec<(Rect, Texture)>)>,
    pub hitboxes: Vec<(String, Vec<Rect>)>,
}

/// A renderable layer with this name exists.
pub open spec fn has_view_layer(v: EnityView, name: Seq<char>) -> bool {
    exists|i: int| 0 <= i < v.viewboxes@.len() && (#[trigger] v.viewboxes@[i].0)@ == name
}

/// A hit-box layer with this name exists.
pub open spec fn has_hit_layer(v: EnityView, name: Seq<char>) -> bool {
    exists|i: int| 0 <= i < v.hitboxes@.len() && (#[trigger] v.hitboxes@[i].0)@ == name
}

/// The layer list `news` equals `olds` with `part` appended to the boxes of
/// the layer named `name`.
pub open spec fn view_layer_extended(
    olds: Seq<(String, Vec<(Rect, Texture)>)>,
    news: Seq<(String, Vec<(Rect, Texture)>)>,
    name: Seq<char>,
    part: Seq<(Rect, Texture)>,
) -> bool {
    exists|i: int|
        0 <= i < olds.len() && (#[trigger] olds[i].0)@ == name && news.len() == olds.len()
            && news[i].1@ == olds[i].1@ + part && (forall|j: int|
            0 <= j < olds.len() && j != i ==> news[j] == olds[j])
}

/// The layer list `news` equals `olds` with `part` appended to the boxes of
/// the layer named `name`.
pub open spec fn hit_layer_extended(
    olds: Seq<(String, Vec<Rect>)>,
    news: Seq<(String, Vec<Rect>)>,
    name: Seq<char>,
    part: Seq<Rect>,
) -> bool {
    exists|i: int|
        0 <= i < olds.len() && (#[trigger] olds[i].0)@ == name && news.len() == olds.len()
            && news[i].1@ == olds[i].1@ + part && (forall|j: int|
            0 <= j < olds.len() && j != i ==> news[j] == olds[j])
}

/// Layer names are unique within each list.
pub open spec fn view_wf(v: EnityView) -> bool {
    &&& forall|i: int, j: int|
        0 <= i < j < v.viewboxes@.len() ==> (#[trigger] v.viewboxes@[i].0)@ != (
        #[trigger] v.viewboxes@[j].0)@
    &&& forall|i: int, j: int|
        0 <= i < j < v.hitboxes@.len() ==> (#[trigger] v.hitboxes@[i].0)@ != (
        #[trigger] v.hitboxes@[j].0)@
}

/// The renderable boxes of all layers, flattened in layer order.
pub open spec fn flat_viewboxes(v: EnityView) -> Seq<(Rect, Texture)> {
    v.viewboxes@.map_values(|p: (String, Vec<(Rect, Texture)>)| p.1@).flatten()
}

/// The hit boxes of all layers, flattened in layer order.
pub open spec fn flat_hitboxes(v: EnityView) -> Seq<Rect> {
    v.hitboxes@.map_values(|p: (String, Vec<Rect>)| p.1@).flatten()
}

/// Copy a list of renderable boxes exactly.
fn clone_boxes(src: &Vec<(Rect, Texture)>) -> (r: Vec<(Rect, Texture)>)
    ensures
        r@ == src@,
{
    let mut out: Vec<(Rect, Texture)> = Vec::new();
    let n = src.len();
    let mut i: usize = 0;
    while i < n
        invariant
            i <= n,
            n == src@.len(),
            out@ == src@.subrange(0, i as int),
        decreases n - i,
    {
        let pair = (src[i].0, src[i].1.clone());
        out.push(pair);
        proof {
            assert(out@ =~= src@.subrange(0, (i + 1) as int));
        }
        i = i + 1;
    }
    proof {
        assert(src@.subrange(0, n as int) =~= src@);
    }
    out
}

/// Copy a list of hit boxes exactly.
fn clone_rects(src: &Vec<Rect>) -> (r: Vec<Rect>)
    ensures
        r@ == src@,
{
    let mut out: Vec<Rect> = Vec::new();
    let n = src.len();
    let mut i: usize = 0;
    while i < n
        invariant
            i <= n,
            n == src@.len(),
            out@ == src@.subrange(0, i as int),
        decreases n - i,
    {
        out.push(src[i]);
        proof {
            assert(out@ =~= src@.subrange(0, (i + 1) as int));
        }
        i = i + 1;
    }
    proof {
        assert(src@.subrange(0, n as int) =~= src@);
    }
    out
}

impl EnityView {
    /// A view with the given boxes under one base layer; empty lists make no
    /// layer at all.
    pub fn new(viewbox: Vec<(Rect, Texture)>, hitbox: Vec<Rect>) -> (r: EnityView)
        ensures
            view_wf(r),
            viewbox@.len() > 0 ==> flat_viewboxes(r) == viewbox@,
            viewbox@.len() == 0 ==> flat_viewboxes(r).len() == 0,
            hitbox@.len() > 0 ==> flat_hitboxes(r) == hitbox@,
            hitbox@.len() == 0 ==> flat_hitboxes(r).len() == 0,
    {
        let mut viewboxes: Vec<(String, Vec<(Rect, Texture)>)> = Vec::new();
        let mut hitboxes: Vec<(String, Vec<Rect>)> = Vec::new();
        if viewbox.len() > 0 {
            let ghost vb = viewbox@;
            viewboxes.push(("base".to_owned(), viewbox));
            proof {
                let m = viewboxes@.map_values(|p: (String, Vec<(Rect, Texture)>)| p.1@);
                assert(m =~= seq![vb]);
                m.lemma_flatten_one_element();
            }
        }
        if hitbox.len() > 0 {
            let ghost hb = hitbox@;
            hitboxes.push(("base".to_owned(), hitbox));
            proof {
                let m = hitboxes@.map_values(|p: (String, Vec<Rect>)| p.1@);
                assert(m =~= seq![hb]);
                m.lemma_flatten_one_element();
            }
        }
        let r = EnityView { viewboxes, hitboxes };
        proof {
            if viewbox@.len() == 0 {
                assert(r.viewboxes@.map_values(|p: (String, Vec<(Rect, Texture)>)| p.1@) =~= Seq::<
                    Seq<(Rect, Texture)>,
                >::empty());
                assert(flat_viewboxes(r) =~= Seq::<(Rect, Texture)>::empty());
            }
            if hitbox@.len() == 0 {
                assert(r.hitboxes@.map_values(|p: (String, Vec<Rect>)| p.1@) =~= Seq::<
                    Seq<Rect>,
                >::empty());
                assert(flat_hitboxes(r) =~= Seq::<Rect>::empty());
            }
        }
        r
    }

    /// Replace or add a renderable layer; returns the replaced boxes.
    pub fn insert(&mut self, name: String, part: Vec<(Rect, Texture)>) -> (r: Option<
        Vec<(Rect, Texture)>,
    >)
        requires
            view_wf(*old(self)),
        ensures
            view_wf(*final(self)),
            final(self).hitboxes == old(self).hitboxes,
            r matches Some(_) <==> has_view_layer(*old(self), name@),
            r matches Some(v) ==> exists|i: int|
                0 <= i < old(self).viewboxes@.len() && (#[trigger] old(self).viewboxes@[i].0)@
                    == name@ && v@ == old(self).viewboxes@[i].1@ && final(self).viewboxes@ == old(
                    self,
                ).viewboxes@.update(i, (name, part)),
            r matches None ==> final(self).viewboxes@ == old(self).viewboxes@.push((name, part)),
    {
        let n = self.viewboxes.len();
        let mut i: usize = 0;
        while i < n
            invariant
                *self == *old(self),
                view_wf(*old(self)),
                i <= n,
                n == self.viewboxes@.len(),
                forall|j: int| 0 <= j < i ==> (#[trigger] self.viewboxes@[j].0)@ != name@,
            decreases n - i,
        {
            if self.viewboxes[i].0 == name {
                let previous = clone_boxes(&self.viewboxes[i].1);
                self.viewboxes[i] = (name, part);
                proof {
                    assert((old(self).viewboxes@[i as int].0)@ == name@);
                    assert(self.viewboxes@ =~= old(self).viewboxes@.update(
                        i as int,
                        (name, part),
                    ));
                    lemma_unique_after_update_vb(
                        old(self).viewboxes@,
                        i as int,
                        self.viewboxes@,
                        (name, part),
                    );
                }
                return Some(previous);
            }
            i = i + 1;
        }
        self.viewboxes.push((name, part));
        None
    }

    /// Remove a renderable layer by name, swapping the last layer into its
    /// place; returns its boxes.
    pub fn remove(&mut self, name: &str) -> (r: Option<Vec<(Rect, Texture)>>)
        requires
            view_wf(*old(self)),
        ensures
            view_wf(*final(self)),
            final(self).hitboxes == old(self).hitboxes,
            r matches Some(_) <==> has_view_layer(*old(self), name@),
            r matches None ==> final(self).viewboxes == old(self).viewboxes,
            r matches Some(v) ==> exists|i: int|
                0 <= i < old(self).viewboxes@.len() && (#[trigger] old(self).viewboxes@[i].0)@
                    == name@ && v@ == old(self).viewboxes@[i].1@ && final(self).viewboxes@ == old(
                    self,
                ).viewboxes@.update(i, old(self).viewboxes@.last()).drop_last(),
            !has_view_layer(*final(self), name@) || !view_wf(*old(self)),
    {
        let key = name.to_owned();
        let n = self.viewboxes.len();
        let mut i: usize = 0;
        while i < n
            invariant
                *self == *old(self),
                view_wf(*old(self)),
                i <= n,
                n == self.viewboxes@.len(),
                key@ == name@,
                forall|j: int| 0 <= j < i ==> (#[trigger] self.viewboxes@[j].0)@ != name@,
            decreases n - i,
        {
            if self.viewboxes[i].0 == key {
                let entry = self.viewboxes.swap_remove(i);
                proof {
                    assert((old(self).viewboxes@[i as int].0)@ == name@);
                    lemma_unique_after_swap_remove_vb(old(self).viewboxes@, i as int, self.viewboxes@, name@);
                }
                return Some(entry.1);
            }
            i = i + 1;
        }
        proof {
            assert(!has_view_layer(*self, name@));
        }
        None
    }

    /// Append boxes to a renderable layer, creating it if absent.
    pub fn mixin(&mut self, name: String, part: Vec<(Rect, Texture)>)
        requires
            view_wf(*old(self)),
        ensures
            view_wf(*final(self)),
            final(self).hitboxes == old(self).hitboxes,
            !has_view_layer(*old(self), name@) ==> final(self).viewboxes@ == old(
                self,
            ).viewboxes@.push((name, part)),
            has_view_layer(*old(self), name@) ==> view_layer_extended(
                old(self).viewboxes@,
                final(self).viewboxes@,
                name@,
                part@,
            ),
    {
        let n = self.viewboxes.len();
        let mut i: usize = 0;
        while i < n
            invariant
                *self == *old(self),
                view_wf(*old(self)),
                i <= n,
                n == self.viewboxes@.len(),
                forall|j: int| 0 <= j < i ==> (#[trigger] self.viewboxes@[j].0)@ != name@,
            decreases n - i,
        {
            if self.viewboxes[i].0 == name {
                proof {
                    assert((old(self).viewboxes@[i as int].0)@ == name@);
                }
                let mut merged = clone_boxes(&self.viewboxes[i].1);
                let mut extra = part;
                merged.append(&mut extra);
                let entry_name = self.viewboxes[i].0.clone();
                let ghost entry = (entry_name, merged);
                self.viewboxes[i] = (entry_name, merged);
                proof {
                    assert(self.viewboxes@ =~= old(self).viewboxes@.update(i as int, entry));
                    assert((self.viewboxes@[i as int].0)@ == (old(self).viewboxes@[i as int].0)@);
                    lemma_unique_after_update_vb(
                        old(self).viewboxes@,
                        i as int,
                        self.viewboxes@,
                        entry,
                    );
                }
                return ;
            }
            i = i + 1;
        }
        self.viewboxes.push((name, part));
    }

    /// Replace or add a hit-box layer; returns the replaced boxes.
    pub fn insert_hitbox(&mut self, name: String, part: Vec<Rect>) -> (r: Option<Vec<Rect>>)
        requires
            view_wf(*old(self)),
        ensures
            view_wf(*final(self)),
            final(self).viewboxes == old(self).viewboxes,
            r matches Some(_) <==> has_hit_layer(*old(self), name@),
            r matches Some(v) ==> exists|i: int|
                0 <= i < old(self).hitboxes@.len() && (#[trigger] old(self).hitboxes@[i].0)@
                    == name@ && v@ == old(self).hitboxes@[i].1@ && final(self).hitboxes@ == old(
                    self,
                ).hitboxes@.update(i, (name, part)),
            r matches None ==> final(self).hitboxes@ == old(self).hitboxes@.push((name, part)),
    {
        let n = self.hitboxes.len();
        let mut i: usize = 0;
        while i < n
            invariant
                *self == *old(self),
                view_wf(*old(self)),
                i <= n,
                n == self.hitboxes@.len(),
                forall|j: int| 0 <= j < i ==> (#[trigger] self.hitboxes@[j].0)@ != name@,
            decreases n - i,
        {
            if self.hitboxes[i].0 == name {
                let previous = clone_rects(&self.hitboxes[i].1);
                self.hitboxes[i] = (name, part);
                proof {
                    assert((old(self).hitboxes@[i as int].0)@ == name@);
                    assert(self.hitboxes@ =~= old(self).hitboxes@.update(
                        i as int,
                        (name, part),
                    ));
                    lemma_unique_after_update_hb(
                        old(self).hitboxes@,
                        i as int,
                        self.hitboxes@,
                        (name, part),
                    );
                }
                return Some(previous);
            }
            i = i + 1;
        }
        self.hitboxes.push((name, part));
        None
    }

    /// Remove a hit-box layer by name, swapping the last layer into its
    /// place; returns its boxes.
    pub fn remove_hitbox(&mut self, name: &str) -> (r: Option<Vec<Rect>>)
        requires
            view_wf(*old(self)),
        ensures
            view_wf(*final(self)),
            final(self).viewboxes == old(self).viewboxes,
            r matches Some(_) <==> has_hit_layer(*old(self), name@),
            r matches None ==> final(self).hitboxes == old(self).hitboxes,
            r matches Some(v) ==> exists|i: int|
                0 <= i < old(self).hitboxes@.len() && (#[trigger] old(self).hitboxes@[i].0)@
                    == name@ && v@ == old(self).hitboxes@[i].1@ && final(self).hitboxes@ == old(
                    self,
                ).hitboxes@.update(i, old(self).hitboxes@.last()).drop_last(),
            !has_hit_layer(*final(self), name@) || !view_wf(*old(self)),
    {
        let key = name.to_owned();
        let n = self.hitboxes.len();
        let mut i: usize = 0;
        while i < n
            invariant
                *self == *old(self),
                view_wf(*old(self)),
                i <= n,
                n == self.hitboxes@.len(),
                key@ == name@,
                forall|j: int| 0 <= j < i ==> (#[trigger] self.hitboxes@[j].0)@ != name@,
            decreases n - i,
        {
            if self.hitboxes[i].0 == key {
                let entry = self.hitboxes.swap_remove(i);
                proof {
                    assert((old(self).hitboxes@[i as int].0)@ == name@);
                    lemma_unique_after_swap_remove_hb(old(self).hitboxes@, i as int, self.hitboxes@, name@);
                }
                return Some(entry.1);
            }
            i = i + 1;
        }
        proof {
            assert(!has_hit_layer(*self, name@));
        }
        None
    }

    /// Append boxes to a hit-box layer, creating it if absent.
    pub fn mixin_hitbox(&mut self, name: String, part: Vec<Rect>)
        requires
            view_wf(*old(self)),
        ensures
            view_wf(*final(self)),
            final(self).viewboxes == old(self).viewboxes,
            !has_hit_layer(*old(self), name@) ==> final(self).hitboxes@ == old(
                self,
            ).hitboxes@.push((name, part)),
            has_hit_layer(*old(self), name@) ==> hit_layer_extended(
                old(self).hitboxes@,
                final(self).hitboxes@,
                name@,
                part@,
            ),
    {
        let n = self.hitboxes.len();
        let mut i: usize = 0;
        while i < n
            invariant
                *self == *old(self),
                view_wf(*old(self)),
                i <= n,
                n == self.hitboxes@.len(),
                forall|j: int| 0 <= j < i ==> (#[trigger] self.hitboxes@[j].0)@ != name@,
            decreases n - i,
        {
            if self.hitboxes[i].0 == name {
                proof {
                    assert((old(self).hitboxes@[i as int].0)@ == name@);
                }
                let mut merged = clone_rects(&self.hitboxes[i].1);
                let mut extra = part;
                merged.append(&mut extra);
                let entry_name = self.hitboxes[i].0.clone();
                let ghost entry = (entry_name, merged);
                self.hitboxes[i] = (entry_name, merged);
                proof {
                    assert(self.hitboxes@ =~= old(self).hitboxes@.update(i as int, entry));
                    assert((self.hitboxes@[i as int].0)@ == (old(self).hitboxes@[i as int].0)@);
                    lemma_unique_after_update_hb(
                        old(self).hitboxes@,
                        i as int,
                        self.hitboxes@,
                        entry,
                    );
                }
                return ;
            }
            i = i + 1;
        }
        self.hitboxes.push((name, part));
    }

    /// All renderable boxes, flattened across layers in insertion order.
    pub fn viewboxes(&self) -> (r: Vec<(Rect, Texture)>)
        ensures
            r@ == flat_viewboxes(*self),
    {
        let mut out: Vec<(Rect, Texture)> = Vec::new();
        let n = self.viewboxes.len();
        let mut i: usize = 0;
        proof {
            assert(self.viewboxes@.subrange(0, 0).map_values(
                |p: (String, Vec<(Rect, Texture)>)| p.1@,
            ) =~= Seq::<Seq<(Rect, Texture)>>::empty());
            assert(out@ =~= Seq::<Seq<(Rect, Texture)>>::empty().flatten());
        }
        while i < n
            invariant
                i <= n,
                n == self.viewboxes@.len(),
                out@ == self.viewboxes@.subrange(0, i as int).map_values(
                    |p: (String, Vec<(Rect, Texture)>)| p.1@,
                ).flatten(),
            decreases n - i,
        {
            let mut batch = clone_boxes(&self.viewboxes[i].1);
            out.append(&mut batch);
            proof {
                let f = |p: (String, Vec<(Rect, Texture)>)| p.1@;
                let pre = self.viewboxes@.subrange(0, i as int).map_values(f);
                let now = self.viewboxes@.subrange(0, (i + 1) as int).map_values(f);
                assert(now =~= pre.push(self.viewboxes@[i as int].1@));
                Seq::lemma_flatten_push(pre, self.viewboxes@[i as int].1@);
            }
            i = i + 1;
        }
        proof {
            assert(self.viewboxes@.subrange(0, n as int) =~= self.viewboxes@);
        }
        out
    }

    /// All hit boxes, flattened across layers in insertion order.
    pub fn hitboxes(&self) -> (r: Vec<Rect>)
        ensures
            r@ == flat_hitboxes(*self),
    {
        let mut out: Vec<Rect> = Vec::new();
        let n = self.hitboxes.len();
        let mut i: usize = 0;
        proof {
            assert(self.hitboxes@.subrange(0, 0).map_values(|p: (String, Vec<Rect>)| p.1@) =~= Seq::<
                Seq<Rect>,
            >::empty());
            assert(out@ =~= Seq::<Seq<Rect>>::empty().flatten());
        }
        while i < n
            invariant
                i <= n,
                n == self.hitboxes@.len(),
                out@ == self.hitboxes@.subrange(0, i as int).map_values(
                    |p: (String, Vec<Rect>)| p.1@,
                ).flatten(),
            decreases n - i,
        {
            let mut batch = clone_rects(&self.hitboxes[i].1);
            out.append(&mut batch);
            proof {
                let f = |p: (String, Vec<Rect>)| p.1@;
                let pre = self.hitboxes@.subrange(0, i as int).map_values(f);
                let now = self.hitboxes@.subrange(0, (i + 1) as int).map_values(f);
                assert(now =~= pre.push(self.hitboxes@[i as int].1@));
                Seq::lemma_flatten_push(pre, self.hitboxes@[i as int].1@);
            }
            i = i + 1;
        }
        proof {
            assert(self.hitboxes@.subrange(0, n as int) =~= self.hitboxes@);
        }
        out
    }
}

/// Replacing a layer's boxes under the same name keeps names unique.
proof fn lemma_unique_after_update_vb(
    before: Seq<(String, Vec<(Rect, Texture)>)>,
    i: int,
    after: Seq<(String, Vec<(Rect, Texture)>)>,
    entry: (String, Vec<(Rect, Texture)>),
)
    requires
        0 <= i < before.len(),
        after == before.update(i, entry),
        (entry.0)@ == (before[i].0)@,
        forall|a: int, b: int|
            0 <= a < b < before.len() ==> (#[trigger] before[a].0)@ != (#[trigger] before[b].0)@,
    ensures
        forall|a: int, b: int|
            0 <= a < b < after.len() ==> (#[trigger] after[a].0)@ != (#[trigger] after[b].0)@,
{
    assert forall|a: int, b: int| 0 <= a < b < after.len() implies (#[trigger] after[a].0)@ != (
    #[trigger] after[b].0)@ by {
        if a == i {
            assert(after[a].0@ == before[a].0@);
            assert(after[b] == before[b]);
        } else if b == i {
            assert(after[b].0@ == before[b].0@);
            assert(after[a] == before[a]);
        } else {
            assert(after[a] == before[a]);
            assert(after[b] == before[b]);
        }
    }
}

/// Replacing a layer's boxes under the same name keeps names unique.
proof fn lemma_unique_after_update_hb(
    before: Seq<(String, Vec<Rect>)>,
    i: int,
    after: Seq<(String, Vec<Rect>)>,
    entry: (String, Vec<Rect>),
)
    requires
        0 <= i < before.len(),
        after == before.update(i, entry),
        (entry.0)@ == (before[i].0)@,
        forall|a: int, b: int|
            0 <= a < b < before.len() ==> (#[trigger] before[a].0)@ != (#[trigger] before[b].0)@,
    ensures
        forall|a: int, b: int|
            0 <= a < b < after.len() ==> (#[trigger] after[a].0)@ != (#[trigger] after[b].0)@,
{
    assert forall|a: int, b: int| 0 <= a < b < after.len() implies (#[trigger] after[a].0)@ != (
    #[trigger] after[b].0)@ by {
        if a == i {
            assert(after[a].0@ == before[a].0@);
            assert(after[b] == before[b]);
        } else if b == i {
            assert(after[b].0@ == before[b].0@);
            assert(after[a] == before[a]);
        } else {
            assert(after[a] == before[a]);
            assert(after[b] == before[b]);
        }
    }
}

/// Unique names survive a swap-remove, and the removed name is gone.
proof fn lemma_unique_after_swap_remove_vb(
    before: Seq<(String, Vec<(Rect, Texture)>)>,
    i: int,
    after: Seq<(String, Vec<(Rect, Texture)>)>,
    name: Seq<char>,
)
    requires
        0 <= i < before.len(),
        after == before.update(i, before.last()).drop_last(),
        (before[i].0)@ == name,
        forall|a: int, b: int|
            0 <= a < b < before.len() ==> (#[trigger] before[a].0)@ != (#[trigger] before[b].0)@,
    ensures
        forall|j: int| 0 <= j < after.len() ==> (#[trigger] after[j].0)@ != name,
        forall|a: int, b: int|
            0 <= a < b < after.len() ==> (#[trigger] after[a].0)@ != (#[trigger] after[b].0)@,
{
    assert forall|j: int| 0 <= j < after.len() implies (#[trigger] after[j].0)@ != name by {
        if j == i {
            assert(after[j] == before[before.len() - 1]);
        } else {
            assert(after[j] == before[j]);
        }
    }
    assert forall|a: int, b: int| 0 <= a < b < after.len() implies (#[trigger] after[a].0)@ != (
    #[trigger] after[b].0)@ by {
        if a == i {
            assert(after[a] == before[before.len() - 1]);
            assert(after[b] == before[b]);
        } else if b == i {
            assert(after[b] == before[before.len() - 1]);
            assert(after[a] == before[a]);
        } else {
            assert(after[a] == before[a]);
            assert(after[b] == before[b]);
        }
    }
}

/// Unique names survive a swap-remove, and the removed name is gone.
proof fn lemma_unique_after_swap_remove_hb(
    before: Seq<(String, Vec<Rect>)>,
    i: int,
    after: Seq<(String, Vec<Rect>)>,
    name: Seq<char>,
)
    requires
        0 <= i < before.len(),
        after == before.update(i, before.last()).drop_last(),
        (before[i].0)@ == name,
        forall|a: int, b: int|
            0 <= a < b < before.len() ==> (#[trigger] before[a].0)@ != (#[trigger] before[b].0)@,
    ensures
        forall|j: int| 0 <= j < after.len() ==> (#[trigger] after[j].0)@ != name,
        forall|a: int, b: int|
            0 <= a < b < after.len() ==> (#[trigger] after[a].0)@ != (#[trigger] after[b].0)@,
{
    assert forall|j: int| 0 <= j < after.len() implies (#[trigger] after[j].0)@ != name by {
        if j == i {
            assert(after[j] == before[before.len() - 1]);
        } else {
            assert(after[j] == before[j]);
        }
    }
    assert forall|a: int, b: int| 0 <= a < b < after.len() implies (#[trigger] after[a].0)@ != (
    #[trigger] after[b].0)@ by {
        if a == i {
            assert(after[a] == before[before.len() - 1]);
            assert(after[b] == before[b]);
        } else if b == i {
            assert(after[b] == before[before.len() - 1]);
            assert(after[a] == before[a]);
        } else {
            assert(after[a] == before[a]);
            assert(after[b] == before[b]);
        }
    }
}

} // verus!
