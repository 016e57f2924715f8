//! What the core hands to a renderer: textures, a viewport, and a frame that
//! accumulates world-space boxes. The core produces frames; it draws nothing.

use vstd::prelude::*;
use crate::num::{div_t, div_trunc, POS_LIMIT, RECT_LIMIT};
use crate::rect::Rect;
use crate::vector::{bounded_by, Vector};

verus! {

/// A texture reference: a solid color or a bitmap name.
#[derive(Debug)]
pub enum Texture {
    Color(String),
    Bitmap(String),
}

impl Clone for Texture {
    /// An exact copy.
    fn clone(&self) -> (r: Texture)
        ensures
            r == *self,
    {
        match self {
            Texture::Color(c) => Texture::Color(c.clone()),
            Texture::Bitmap(b) => Texture::Bitmap(b.clone()),
        }
    }
}

impl Default for Texture {
    /// Solid black.
    fn default() -> (r: Texture)
        ensures
            r matches Texture::Color(c) && c@ == "#000000"@,
    {
        Texture::Color("#000000".to_owned())
    }
}

/// Something that can add its world-space boxes to a frame.
pub trait Render {
    fn render(&self, frame: &mut RenderFrame);
}

/// The visible window: a center position and a size.
#[derive(Debug, Clone, Copy)]
pub struct ViewPort {
    pub position: Vector,
    pub size: Vector,
}

impl ViewPort {
    /// A viewport of the default size at the origin.
    pub fn new() -> (r: ViewPort)
        ensures
            r.position == (Vector(0i64, 0i64)),
            r.size == (Vector(1000i64, 1000i64)),
    {
        ViewPort { position: Vector(0, 0), size: Vector(1000, 1000) }
    }

    /// The bottom-left corner: the center minus half the size.
    pub fn origin(&self) -> (r: Vector)
        requires
            bounded_by(self.position, POS_LIMIT as int),
            bounded_by(self.size, RECT_LIMIT as int),
        ensures
            r.0 == self.position.0 - div_t(self.size.0 as int, 2),
            r.1 == self.position.1 - div_t(self.size.1 as int, 2),
    {
        proof {
            crate::num::lemma_div_t_bound(self.size.0 as int, RECT_LIMIT as int, 2);
            crate::num::lemma_div_t_bound(self.size.1 as int, RECT_LIMIT as int, 2);
        }
        let hx = div_trunc(self.size.0, 2);
        let hy = div_trunc(self.size.1, 2);
        Vector(self.position.0 - hx, self.position.1 - hy)
    }

    /// Map a point in viewport-relative units into world coordinates: scale
    /// by half the viewport height and translate to the viewport's center.
    pub fn map_to_viewport(&self, vector: Vector) -> (r: Vector)
        requires
            bounded_by(self.position, POS_LIMIT as int),
            bounded_by(self.size, RECT_LIMIT as int),
            bounded_by(vector, 1_000_000),
        ensures
            r.0 == vector.0 * div_t(self.size.1 as int, 2) + self.position.0,
            r.1 == vector.1 * div_t(self.size.1 as int, 2) + self.position.1,
    {
        proof {
            crate::num::lemma_div_t_bound(self.size.1 as int, RECT_LIMIT as int, 2);
            assert(-(8_000_000_000_000_000_000int) <= vector.0 * div_t(self.size.1 as int, 2)
                <= 8_000_000_000_000_000_000int && -(8_000_000_000_000_000_000int) <= vector.1
                * div_t(self.size.1 as int, 2) <= 8_000_000_000_000_000_000int)
                by (nonlinear_arith)
                requires
                    -1_000_000 <= vector.0 <= 1_000_000,
                    -1_000_000 <= vector.1 <= 1_000_000,
                    -(RECT_LIMIT as int) <= div_t(self.size.1 as int, 2) <= RECT_LIMIT as int,
                    RECT_LIMIT == 8_000_000_000_000i64,
            ;
        }
        let h = div_trunc(self.size.1, 2);
        Vector(vector.0 * h + self.position.0, vector.1 * h + self.position.1)
    }

    /// Move the viewport.
    pub fn set_position(&mut self, vector: Vector)
        ensures
            final(self).position == vector,
            final(self).size == old(self).size,
    {
        self.position = vector;
    }

    /// Resize the viewport.
    pub fn set_size(&mut self, vector: Vector)
        ensures
            final(self).size == vector,
            final(self).position == old(self).position,
    {
        self.size = vector;
    }
}

/// A frame of world-space boxes to draw: scene entities, then UI on top.
/// Boxes stand in draw order: y centers ascending.
pub open spec fn y_sorted(s: Seq<(Rect, Texture)>) -> bool {
    forall|a: int, b: int|
        0 <= a < b < s.len() ==> (#[trigger] s[a]).0.position.1 <= (#[trigger] s[b]).0.position.1
}

/// Inserting before the first strictly larger key keeps the list sorted.
proof fn lemma_insert_y_sorted(s: Seq<(Rect, Texture)>, k: int, v: (Rect, Texture))
    requires
        0 <= k <= s.len(),
        y_sorted(s),
        forall|j: int| 0 <= j < k ==> (#[trigger] s[j]).0.position.1 <= v.0.position.1,
        k < s.len() ==> v.0.position.1 < s[k].0.position.1,
    ensures
        y_sorted(s.insert(k, v)),
{
    let t = s.insert(k, v);
    assert forall|a: int, b: int| 0 <= a < b < t.len() implies (#[trigger] t[a]).0.position.1 <= (
    #[trigger] t[b]).0.position.1 by {
        if a < k {
            assert(t[a] == s[a]);
        } else if a > k {
            assert(t[a] == s[a - 1]);
        }
        if b < k {
            assert(t[b] == s[b]);
        } else if b > k {
            assert(t[b] == s[b - 1]);
        }
    }
}

/// Inserting an element anywhere adds exactly it to the multiset.
proof fn lemma_insert_multiset(s: Seq<(Rect, Texture)>, k: int, v: (Rect, Texture))
    requires
        0 <= k <= s.len(),
    ensures
        s.insert(k, v).to_multiset() == s.to_multiset().insert(v),
{
    broadcast use vstd::seq_lib::group_to_multiset_ensures;

    let a = s.subrange(0, k);
    let b = s.subrange(k, s.len() as int);
    assert(s =~= a + b);
    assert(s.insert(k, v) =~= a.push(v) + b);
    vstd::seq_lib::lemma_multiset_commutative(a, b);
    vstd::seq_lib::lemma_multiset_commutative(a.push(v), b);
    assert(a.push(v).to_multiset() =~= a.to_multiset().insert(v));
    assert(s.insert(k, v).to_multiset() =~= s.to_multiset().insert(v));
}

#[derive(Debug, Clone)]
pub struct RenderFrame {
    entities: Vec<(Rect, Texture)>,
    ui: Vec<(Rect, Texture)>,
    viewport: ViewPort,
}

impl RenderFrame {
    /// An empty frame with the default viewport.
    pub fn new() -> (r: RenderFrame)
        ensures
            r.entities()@.len() == 0,
            r.ui_boxes()@.len() == 0,
    {
        RenderFrame { ui: Vec::new(), entities: Vec::new(), viewport: ViewPort::new() }
    }

    /// An empty frame with room reserved for `capacity` boxes.
    pub fn with_capacity(capacity: usize) -> (r: RenderFrame)
        ensures
            r.entities()@.len() == 0,
            r.ui_boxes()@.len() == 0,
    {
        RenderFrame {
            ui: Vec::with_capacity(capacity),
            entities: Vec::with_capacity(capacity),
            viewport: ViewPort::new(),
        }
    }

    /// The accumulated entity boxes, in the order they were appended.
    pub fn get(&self) -> (r: &Vec<(Rect, Texture)>)
        ensures
            r == self.entities(),
    {
        &self.entities
    }

    /// The accumulated UI boxes, in the order they were appended.
    pub fn get_ui(&self) -> (r: &Vec<(Rect, Texture)>)
        ensures
            r == self.ui_boxes(),
    {
        &self.ui
    }

    /// Spec view of the entity boxes.
    pub closed spec fn entities(&self) -> Vec<(Rect, Texture)> {
        self.entities
    }

    /// Spec view of the UI boxes.
    pub closed spec fn ui_boxes(&self) -> Vec<(Rect, Texture)> {
        self.ui
    }

    /// Spec view of the viewport.
    pub closed spec fn viewport_spec(&self) -> ViewPort {
        self.viewport
    }

    /// Append a batch of entity boxes.
    pub fn append(&mut self, input: &Vec<(Rect, Texture)>)
        ensures
            final(self).entities()@ == old(self).entities()@ + input@,
            final(self).ui_boxes() == old(self).ui_boxes(),
            final(self).viewport_spec() == old(self).viewport_spec(),
    {
        let n = input.len();
        let mut i: usize = 0;
        while i < n
            invariant
                i <= n,
                n == input@.len(),
                self.entities@ == old(self).entities@ + input@.subrange(0, i as int),
                self.ui == old(self).ui,
                self.viewport == old(self).viewport,
            decreases n - i,
        {
            let pair = (input[i].0, input[i].1.clone());
            self.entities.push(pair);
            proof {
                assert(input@.subrange(0, (i + 1) as int) =~= input@.subrange(0, i as int).push(
                    input@[i as int],
                ));
                assert(input@[i as int].0 == pair.0);
            }
            i = i + 1;
        }
        proof {
            assert(input@.subrange(0, n as int) =~= input@);
        }
    }

    /// Sort the world boxes into draw order: ascending y center. A box with
    /// a smaller y is drawn first, so boxes lower on the screen paint over
    /// those above them.
    pub fn sort(&mut self)
        ensures
            final(self).entities()@.to_multiset() == old(self).entities()@.to_multiset(),
            y_sorted(final(self).entities()@),
            final(self).ui_boxes() == old(self).ui_boxes(),
            final(self).viewport_spec() == old(self).viewport_spec(),
    {
        let n = self.entities.len();
        let mut out: Vec<(Rect, Texture)> = Vec::new();
        let mut i: usize = 0;
        proof {
            assert(self.entities@.subrange(0, 0) =~= out@);
        }
        while i < n
            invariant
                i <= n,
                n == self.entities@.len(),
                *self == *old(self),
                y_sorted(out@),
                out@.to_multiset() == self.entities@.subrange(0, i as int).to_multiset(),
            decreases n - i,
        {
            let item = (self.entities[i].0, self.entities[i].1.clone());
            proof {
                assert(item == self.entities@[i as int]);
            }
            let key = item.0.position.1;
            let m = out.len();
            let mut k: usize = 0;
            while k < m && out[k].0.position.1 <= key
                invariant
                    k <= m,
                    m == out@.len(),
                    key == item.0.position.1,
                    forall|j: int| 0 <= j < k ==> (#[trigger] out@[j]).0.position.1 <= key,
                decreases m - k,
            {
                k = k + 1;
            }
            let ghost out0 = out@;
            out.insert(k, item);
            proof {
                assert(out@ == out0.insert(k as int, item));
                lemma_insert_y_sorted(out0, k as int, item);
                lemma_insert_multiset(out0, k as int, item);
                broadcast use vstd::seq_lib::group_to_multiset_ensures;

                assert(self.entities@.subrange(0, (i + 1) as int) =~= self.entities@.subrange(
                    0,
                    i as int,
                ).push(self.entities@[i as int]));
            }
            i = i + 1;
        }
        proof {
            assert(self.entities@.subrange(0, n as int) =~= self.entities@);
        }
        self.entities = out;
    }

    /// Append one entity box.
    pub fn push(&mut self, input: (Rect, Texture))
        ensures
            final(self).entities()@ == old(self).entities()@.push(input),
            final(self).ui_boxes() == old(self).ui_boxes(),
            final(self).viewport_spec() == old(self).viewport_spec(),
    {
        self.entities.push(input);
    }

    /// Append a batch of UI boxes.
    pub fn append_ui(&mut self, input: &Vec<(Rect, Texture)>)
        ensures
            final(self).ui_boxes()@ == old(self).ui_boxes()@ + input@,
            final(self).entities() == old(self).entities(),
            final(self).viewport_spec() == old(self).viewport_spec(),
    {
        let n = input.len();
        let mut i: usize = 0;
        while i < n
            invariant
                i <= n,
                n == input@.len(),
                self.ui@ == old(self).ui@ + input@.subrange(0, i as int),
                self.entities == old(self).entities,
                self.viewport == old(self).viewport,
            decreases n - i,
        {
            let pair = (input[i].0, input[i].1.clone());
            self.ui.push(pair);
            proof {
                assert(input@.subrange(0, (i + 1) as int) =~= input@.subrange(0, i as int).push(
                    input@[i as int],
                ));
                assert(input@[i as int].0 == pair.0);
            }
            i = i + 1;
        }
        proof {
            assert(input@.subrange(0, n as int) =~= input@);
        }
    }

    /// Append one UI box.
    pub fn push_ui(&mut self, input: (Rect, Texture))
        ensures
            final(self).ui_boxes()@ == old(self).ui_boxes()@.push(input),
            final(self).entities() == old(self).entities(),
            final(self).viewport_spec() == old(self).viewport_spec(),
    {
        self.ui.push(input);
    }

    /// Replace the viewport.
    pub fn set_viewport(&mut self, viewport: ViewPort)
        ensures
            final(self).viewport_spec() == viewport,
            final(self).entities() == old(self).entities(),
            final(self).ui_boxes() == old(self).ui_boxes(),
    {
        self.viewport = viewport;
    }

    /// The current viewport.
    pub fn viewport(&self) -> (r: ViewPort)
        ensures
            r == self.viewport_spec(),
    {
        self.viewport
    }

    /// An empty frame that keeps this frame's viewport.
    pub fn extend(&self) -> (r: RenderFrame)
        ensures
            r.entities()@.len() == 0,
            r.ui_boxes()@.len() == 0,
            r.viewport_spec() == self.viewport_spec(),
    {
        RenderFrame { ui: Vec::new(), entities: Vec::new(), viewport: self.viewport }
    }

    /// Take the accumulated frame out, leaving an empty one with the same
    /// viewport behind.
    pub fn flush(&mut self) -> (r: RenderFrame)
        ensures
            r == *old(self),
            final(self).entities()@.len() == 0,
            final(self).ui_boxes()@.len() == 0,
            final(self).viewport_spec() == old(self).viewport_spec(),
    {
        let mut frame = self.extend();
        core::mem::swap(self, &mut frame);
        frame
    }
}

} // verus!
