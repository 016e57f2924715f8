//! Input state handed in from outside: pressed keys, click points, and the
//! pointer position, plus the key-to-direction mapping.

use vstd::prelude::*;
use crate::vector::Vector;

verus! {

/// One key's state as delivered by the environment.
#[derive(Debug, Clone, Hash)]
pub struct KeyEvent {
    pub code: String,
    pub alt: bool,
    pub ctrl: bool,
    pub meta: bool,
    pub shift: bool,
    pub repeat: bool,
}

/// The whole input state for one frame.
#[derive(Debug)]
pub struct Control {
    pub keys: Vec<KeyEvent>,
    pub click: [Option<Vector>; 2],
    pub mouse: Vector,
}

impl Control {
    /// An input state with nothing pressed.
    pub fn new() -> (r: Control)
        ensures
            r.keys@.len() == 0,
            r.mouse == (Vector(0i64, 0i64)),
    {
        Control { keys: Vec::new(), click: [None, None], mouse: Vector(0, 0) }
    }
}

/// Maps pressed keys to a unit movement direction, one axis step per
/// direction whose key list has a pressed key.
pub trait GetMoveVector {
    fn move_top(&self) -> Vec<String>;

    fn move_bottom(&self) -> Vec<String>;

    fn move_left(&self) -> Vec<String>;

    fn move_right(&self) -> Vec<String>;

    fn keys(&self) -> &Vec<KeyEvent>;

    /// The movement direction: x is right minus left, y is top minus bottom,
    /// each axis one of -1, 0, or 1.
    fn move_vector(&self) -> (r: Vector)
        ensures
            -1 <= r.0 <= 1,
            -1 <= r.1 <= 1,
    {
        let top = self.move_top();
        let bottom = self.move_bottom();
        let left = self.move_left();
        let right = self.move_right();
        let keys = self.keys();
        let mut pressed_top = false;
        let mut pressed_bottom = false;
        let mut pressed_left = false;
        let mut pressed_right = false;
        let n = keys.len();
        let mut i: usize = 0;
        while i < n
            invariant
                i <= n,
                n == keys@.len(),
            decreases n - i,
        {
            let code = &keys[i].code;
            if !pressed_top && string_list_contains(&top, code) {
                pressed_top = true;
            }
            if !pressed_bottom && string_list_contains(&bottom, code) {
                pressed_bottom = true;
            }
            if !pressed_left && string_list_contains(&left, code) {
                pressed_left = true;
            }
            if !pressed_right && string_list_contains(&right, code) {
                pressed_right = true;
            }
            i = i + 1;
        }
        let x: i64 = sign_of(pressed_right) - sign_of(pressed_left);
        let y: i64 = sign_of(pressed_top) - sign_of(pressed_bottom);
        Vector(x, y)
    }
}

/// `1` for a pressed flag, `0` otherwise.
fn sign_of(v: bool) -> (r: i64)
    ensures
        r == if v {
            1int
        } else {
            0int
        },
{
    if v {
        1
    } else {
        0
    }
}

/// Whether the key list holds this code.
fn string_list_contains(list: &Vec<String>, code: &String) -> (r: bool)
    ensures
        r == (exists|i: int| 0 <= i < list@.len() && (#[trigger] list@[i])@ == code@),
{
    let n = list.len();
    let mut i: usize = 0;
    while i < n
        invariant
            i <= n,
            n == list@.len(),
            forall|j: int| 0 <= j < i ==> (#[trigger] list@[j])@ != code@,
        decreases n - i,
    {
        if list[i] == *code {
            proof {
                assert((list@[i as int])@ == code@);
            }
            return true;
        }
        i = i + 1;
    }
    false
}

impl GetMoveVector for Control {
    /// The upward key.
    fn move_top(&self) -> Vec<String> {
        let mut v: Vec<String> = Vec::new();
        v.push("KeyW".to_owned());
        v
    }

    /// The downward key.
    fn move_bottom(&self) -> Vec<String> {
        let mut v: Vec<String> = Vec::new();
        v.push("KeyS".to_owned());
        v
    }

    /// The leftward key.
    fn move_left(&self) -> Vec<String> {
        let mut v: Vec<String> = Vec::new();
        v.push("KeyA".to_owned());
        v
    }

    /// The rightward key.
    fn move_right(&self) -> Vec<String> {
        let mut v: Vec<String> = Vec::new();
        v.push("KeyD".to_owned());
        v
    }

    /// The pressed keys.
    fn keys(&self) -> &Vec<KeyEvent> {
        &self.keys
    }
}

} // verus!
