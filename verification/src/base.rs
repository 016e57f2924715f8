//! An entity's persistent attributes, shared across every space it appears
//! in: name, speed, destroyed flag, collision layer, and ordered group tags.

use vstd::prelude::*;
use crate::num::SPEED_LIMIT;

verus! {

/// The persistent attributes of one entity.
#[derive(Debug, Clone)]
pub struct EnityBase {
    name: String,
    speed: i64,
    destroy: bool,
    /// Collision layer: `0` never collides; equal nonzero layers collide.
    collision: usize,
    groups: Vec<String>,
}

/// The group tags of `b`, as character sequences, in insertion order.
pub closed spec fn group_views(b: EnityBase) -> Seq<Seq<char>> {
    b.groups@.map_values(|s: String| s@)
}

/// Character views of a list of strings, in order.
pub open spec fn str_views(s: Seq<String>) -> Seq<Seq<char>> {
    Seq::new(s.len(), |i: int| s[i]@)
}

/// The sequence with later duplicates dropped: each tag keeps its first
/// appearance's position.
pub open spec fn dedup_first(s: Seq<Seq<char>>) -> Seq<Seq<char>>
    decreases s.len(),
{
    if s.len() == 0 {
        Seq::empty()
    } else {
        let rest = dedup_first(s.drop_last());
        if rest.contains(s.last()) {
            rest
        } else {
            rest.push(s.last())
        }
    }
}

/// Well-formedness: the speed in range and the group tags free of duplicates.
pub open spec fn base_wf(b: EnityBase) -> bool {
    &&& 0 <= b.speed_spec() <= SPEED_LIMIT
    &&& forall|i: int, j: int|
        0 <= i < j < group_views(b).len() ==> group_views(b)[i] != group_views(b)[j]
}

impl EnityBase {
    /// Spec view of the name.
    pub closed spec fn name_spec(&self) -> Seq<char> {
        self.name@
    }

    /// Spec view of the speed.
    pub closed spec fn speed_spec(&self) -> i64 {
        self.speed
    }

    /// Spec view of the destroyed flag.
    pub closed spec fn destroyed(&self) -> bool {
        self.destroy
    }

    /// Spec view of the collision layer.
    pub closed spec fn collision_spec(&self) -> usize {
        self.collision
    }

    /// Spec view of the group tags.
    pub closed spec fn groups_spec(&self) -> Seq<String> {
        self.groups@
    }

    /// The entity's name.
    pub fn name(&self) -> (r: String)
        ensures
            r@ == self.name_spec(),
    {
        self.name.clone()
    }

    /// Whether the entity has been destroyed.
    pub fn is_destroy(&self) -> (r: bool)
        ensures
            r == self.destroyed(),
    {
        self.destroy
    }

    /// Mark the entity destroyed; the next rebuild drops it from the live set.
    pub fn destroy(&mut self)
        ensures
            final(self).destroyed(),
            final(self).name_spec() == old(self).name_spec(),
            final(self).speed_spec() == old(self).speed_spec(),
            final(self).collision_spec() == old(self).collision_spec(),
            final(self).groups_spec() == old(self).groups_spec(),
            base_wf(*old(self)) ==> base_wf(*final(self)),
    {
        self.destroy = true;
        proof {
            assert(group_views(*self) == group_views(*old(self)));
        }
    }

    /// The movement speed, in units per second.
    pub fn speed(&self) -> (r: i64)
        ensures
            r == self.speed_spec(),
    {
        self.speed
    }

    /// Replace the movement speed.
    pub fn set_speed(&mut self, speed: i64)
        requires
            0 <= speed <= SPEED_LIMIT,
        ensures
            final(self).speed_spec() == speed,
            final(self).name_spec() == old(self).name_spec(),
            final(self).destroyed() == old(self).destroyed(),
            final(self).collision_spec() == old(self).collision_spec(),
            final(self).groups_spec() == old(self).groups_spec(),
            base_wf(*old(self)) ==> base_wf(*final(self)),
    {
        self.speed = speed;
        proof {
            assert(group_views(*self) == group_views(*old(self)));
        }
    }

    /// The collision layer.
    pub fn get_collision(&self) -> (r: usize)
        ensures
            r == self.collision_spec(),
    {
        self.collision
    }

    /// Replace the collision layer.
    pub fn set_collision(&mut self, level: usize)
        ensures
            final(self).collision_spec() == level,
            final(self).name_spec() == old(self).name_spec(),
            final(self).destroyed() == old(self).destroyed(),
            final(self).speed_spec() == old(self).speed_spec(),
            final(self).groups_spec() == old(self).groups_spec(),
            base_wf(*old(self)) ==> base_wf(*final(self)),
    {
        self.collision = level;
        proof {
            assert(group_views(*self) == group_views(*old(self)));
        }
    }

    /// Put the entity on the layer that never collides.
    pub fn set_no_collision(&mut self)
        ensures
            final(self).collision_spec() == 0,
            final(self).name_spec() == old(self).name_spec(),
            final(self).destroyed() == old(self).destroyed(),
            final(self).speed_spec() == old(self).speed_spec(),
            final(self).groups_spec() == old(self).groups_spec(),
            base_wf(*old(self)) ==> base_wf(*final(self)),
    {
        self.collision = 0;
        proof {
            assert(group_views(*self) == group_views(*old(self)));
        }
    }

    /// The group tags, in insertion order.
    pub fn groups(&self) -> (r: Vec<String>)
        ensures
            r@.len() == group_views(*self).len(),
            forall|i: int| 0 <= i < r@.len() ==> (#[trigger] r@[i])@ == group_views(*self)[i],
    {
        let mut out: Vec<String> = Vec::new();
        let n = self.groups.len();
        let mut i: usize = 0;
        while i < n
            invariant
                i <= n,
                n == self.groups@.len(),
                out@.len() == i,
                forall|j: int| 0 <= j < i ==> (#[trigger] out@[j])@ == group_views(*self)[j],
            decreases n - i,
        {
            out.push(self.groups[i].clone());
            i = i + 1;
        }
        out
    }

    /// Whether the entity carries this group tag.
    pub fn has_group(&self, group: &str) -> (r: bool)
        ensures
            r == group_views(*self).contains(group@),
    {
        let key = group.to_owned();
        let n = self.groups.len();
        let mut i: usize = 0;
        while i < n
            invariant
                i <= n,
                n == self.groups@.len(),
                key@ == group@,
                forall|j: int| 0 <= j < i ==> group_views(*self)[j] != group@,
            decreases n - i,
        {
            if self.groups[i] == key {
                proof {
                    assert(group_views(*self)[i as int] == group@);
                }
                return true;
            }
            i = i + 1;
        }
        proof {
            assert(forall|j: int|
                0 <= j < group_views(*self).len() ==> group_views(*self)[j] != group@);
        }
        false
    }

    /// Add a group tag; returns whether it was new. Duplicates are not added.
    pub fn add_group(&mut self, group: &str) -> (r: bool)
        ensures
            r == !group_views(*old(self)).contains(group@),
            r ==> group_views(*final(self)) == group_views(*old(self)).push(group@),
            !r ==> final(self).groups_spec() == old(self).groups_spec(),
            final(self).name_spec() == old(self).name_spec(),
            final(self).destroyed() == old(self).destroyed(),
            final(self).speed_spec() == old(self).speed_spec(),
            final(self).collision_spec() == old(self).collision_spec(),
            base_wf(*old(self)) ==> base_wf(*final(self)),
    {
        if self.has_group(group) {
            return false;
        }
        self.groups.push(group.to_owned());
        proof {
            assert(group_views(*self) =~= group_views(*old(self)).push(group@));
        }
        true
    }

    /// Remove a group tag, swapping the last tag into its place; returns
    /// whether it was present.
    pub fn remove_group(&mut self, group: &str) -> (r: bool)
        ensures
            r == group_views(*old(self)).contains(group@),
            !r ==> final(self).groups_spec() == old(self).groups_spec(),
            r ==> final(self).groups_spec().len() == old(self).groups_spec().len() - 1,
            (r && base_wf(*old(self))) ==> !group_views(*final(self)).contains(group@),
            final(self).name_spec() == old(self).name_spec(),
            final(self).destroyed() == old(self).destroyed(),
            final(self).speed_spec() == old(self).speed_spec(),
            final(self).collision_spec() == old(self).collision_spec(),
            base_wf(*old(self)) ==> base_wf(*final(self)),
    {
        let key = group.to_owned();
        let n = self.groups.len();
        let mut i: usize = 0;
        while i < n
            invariant
                *self == *old(self),
                i <= n,
                n == self.groups@.len(),
                key@ == group@,
                forall|j: int| 0 <= j < i ==> group_views(*self)[j] != group@,
            decreases n - i,
        {
            if self.groups[i] == key {
                proof {
                    assert(group_views(*self)[i as int] == group@);
                }
                self.groups.swap_remove(i);
                proof {
                    if base_wf(*old(self)) {
                        assert forall|a: int, b: int|
                            0 <= a < b < old(self).groups@.len() implies (#[trigger] old(
                            self,
                        ).groups@[a]@) != (#[trigger] old(self).groups@[b]@) by {
                            assert(group_views(*old(self))[a] == old(self).groups@[a]@);
                            assert(group_views(*old(self))[b] == old(self).groups@[b]@);
                        }
                        lemma_swap_remove_views(old(self).groups@, i as int, self.groups@, group@);
                        assert forall|k: int|
                            0 <= k < group_views(*self).len() implies #[trigger] group_views(
                            *self,
                        )[k] != group@ by {
                            assert(group_views(*self)[k] == self.groups@[k]@);
                        }
                        assert forall|a: int, b: int|
                            0 <= a < b < group_views(*self).len() implies #[trigger] group_views(
                            *self,
                        )[a] != #[trigger] group_views(*self)[b] by {
                            assert(group_views(*self)[a] == self.groups@[a]@);
                            assert(group_views(*self)[b] == self.groups@[b]@);
                        }
                    }
                }
                return true;
            }
            i = i + 1;
        }
        proof {
            assert(forall|j: int|
                0 <= j < group_views(*self).len() ==> group_views(*self)[j] != group@);
        }
        false
    }

    /// A fresh entity record: collision layer `1`, not destroyed, with the
    /// given group tags, duplicates kept once in first-appearance order.
    pub fn new(name: String, groups: Vec<String>, speed: i64) -> (r: EnityBase)
        requires
            0 <= speed <= SPEED_LIMIT,
        ensures
            r.name_spec() == name@,
            r.speed_spec() == speed,
            !r.destroyed(),
            r.collision_spec() == 1,
            base_wf(r),
            group_views(r) == dedup_first(str_views(groups@)),
            forall|j: int|
                0 <= j < groups@.len() ==> group_views(r).contains((#[trigger] groups@[j])@),
            group_views(r).len() <= groups@.len(),
    {
        let ghost name0 = name@;
        let mut base = EnityBase { name, speed, destroy: false, collision: 1, groups: Vec::new() };
        let n = groups.len();
        let mut i: usize = 0;
        while i < n
            invariant
                i <= n,
                n == groups@.len(),
                base.name_spec() == name0,
                base.speed_spec() == speed,
                !base.destroyed(),
                base.collision_spec() == 1,
                0 <= speed <= SPEED_LIMIT,
                base_wf(base),
                group_views(base) == dedup_first(str_views(groups@.subrange(0, i as int))),
                forall|j: int|
                    0 <= j < i ==> group_views(base).contains((#[trigger] groups@[j])@),
                group_views(base).len() <= i,
            decreases n - i,
        {
            let ghost before = group_views(base);
            let added = base.add_group(groups[i].as_str());
            proof {
                let gi = groups@[i as int]@;
                let gv = group_views(base);
                assert(str_views(groups@.subrange(0, (i + 1) as int)).drop_last() =~= str_views(
                    groups@.subrange(0, i as int),
                ));
                assert(str_views(groups@.subrange(0, (i + 1) as int)).last() == gi);
                assert(str_views(groups@.subrange(0, (i + 1) as int)).len() == i + 1);
                if added {
                    assert(gv == before.push(gi));
                    assert forall|j: int| 0 <= j < i + 1 implies gv.contains(
                        (#[trigger] groups@[j])@,
                    ) by {
                        if j < i {
                            let k = choose|k: int|
                                0 <= k < before.len() && before[k] == groups@[j]@;
                            assert(gv[k] == groups@[j]@);
                        } else {
                            assert(gv[gv.len() - 1] == gi);
                        }
                    }
                } else {
                    assert(gv == before);
                    assert(before.contains(gi));
                }
            }
            i = i + 1;
        }
        proof {
            assert(groups@.subrange(0, groups@.len() as int) =~= groups@);
        }
        base
    }
}

/// Swap-removing the element at `i` keeps exactly the other elements.
proof fn lemma_swap_remove_views(before: Seq<String>, i: int, after: Seq<String>, g: Seq<char>)
    requires
        0 <= i < before.len(),
        after == before.update(i, before.last()).drop_last(),
        before[i]@ == g,
        forall|a: int, b: int| 0 <= a < b < before.len() ==> (#[trigger] before[a]@) != (
        #[trigger] before[b]@),
    ensures
        after.len() == before.len() - 1,
        forall|j: int| 0 <= j < after.len() ==> (#[trigger] after[j]@) != g,
        forall|a: int, b: int| 0 <= a < b < after.len() ==> (#[trigger] after[a]@) != (
        #[trigger] after[b]@),
{
    assert forall|j: int| 0 <= j < after.len() implies after[j]@ != g by {
        if j == i {
            assert(after[j]@ == before[before.len() - 1]@);
            if before.len() - 1 != i {
                assert(before[i]@ != before[before.len() - 1]@);
            }
        } else {
            assert(after[j]@ == before[j]@);
        }
    }
    assert forall|a: int, b: int| 0 <= a < b < after.len() implies (#[trigger] after[a]@) != (
    #[trigger] after[b]@) by {
        if a == i {
            assert(after[a]@ == before[before.len() - 1]@);
            assert(after[b]@ == before[b]@);
        } else if b == i {
            assert(after[b]@ == before[before.len() - 1]@);
            assert(after[a]@ == before[a]@);
        } else {
            assert(after[a]@ == before[a]@);
            assert(after[b]@ == before[b]@);
        }
    }
}

} // verus!
