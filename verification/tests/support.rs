use scene_core::base::EnityBase;
use scene_core::console::Console;
use scene_core::control::{Control, GetMoveVector, KeyEvent};
use scene_core::event::{Event, EventArg, Events};
use scene_core::listener::{Event as ListenedEvent, EventListener, Events as Listeners};
use scene_core::rect::Rect;
use scene_core::render::{RenderFrame, Texture, ViewPort};
use scene_core::vector::Vector;
use scene_core::view::EnityView;

#[test]
fn mod_test() {
    let mut console = Console::new();
    console.info("src/support.rs:1".to_string(), format!("hello {}", 1));
    console.log(format!("[src/support.rs:2] hello {}", 1));
    println!("{}", console.flush());
    console.clear();
    println!("{}", console.flush());
}

#[test]
fn console_report_content() {
    let mut console = Console::new();
    console.info("site".to_string(), "alpha".to_string());
    console.info("site".to_string(), "beta".to_string());
    console.log("one".to_string());
    let report = console.flush();
    assert_eq!(
        report,
        "=Info=========================\nbeta\n=Log==========================\none\n"
    );
}

#[derive(Debug)]
pub enum TestArg {
    S(String),
    N(u32),
}

pub struct ColdEvent {
    a: u8,
}

pub struct HotEvent;

pub enum TestEvent {
    Cold(ColdEvent),
    Hot(HotEvent),
}

impl Event for TestEvent {
    type Arg = TestArg;

    fn name(&self) -> String {
        match self {
            TestEvent::Cold(_) => String::from("cold"),
            TestEvent::Hot(_) => String::from("hot"),
        }
    }

    fn trigger(&mut self, arg: &TestArg) -> bool {
        match self {
            TestEvent::Cold(cold) => {
                match arg {
                    TestArg::S(text) => assert_eq!(text, "cold"),
                    _ => panic!("wrong argument kind"),
                }
                assert_eq!(cold.a, 0);
                false
            },
            TestEvent::Hot(_) => {
                assert!(false);
                false
            },
        }
    }
}

pub struct ColdEventArg;

impl EventArg for ColdEventArg {
    type Arg = String;

    fn name() -> String {
        String::from("cold")
    }
}

pub struct HotEventArg;

impl EventArg for HotEventArg {
    type Arg = u32;

    fn name() -> String {
        String::from("hot")
    }
}

#[test]
fn main() {
    let mut events: Events<TestEvent> = Events::new();
    events.add(TestEvent::Cold(ColdEvent { a: 0 }));
    events.add(TestEvent::Hot(HotEvent));
    events.trigger::<ColdEventArg>(&TestArg::S(String::from("cold")));
    let fire_hot = false;
    if fire_hot {
        events.trigger::<HotEventArg>(&TestArg::N(123));
    }
}

pub struct MouseEvent(i64, i64);

impl ListenedEvent for MouseEvent {
    fn name(&self) -> String {
        String::from("MouseEvent")
    }
}

pub struct HoverListener(u32);

impl EventListener for HoverListener {
    type Ev = MouseEvent;

    fn name(&self) -> String {
        String::from("MouseEvent")
    }

    fn callback(&mut self, event: &mut MouseEvent) -> bool {
        assert!(self.0 == 100, "listener body is changed");
        assert!(event.0 == 0 && 0 == event.1, "event body is changed");
        true
    }
}

#[test]
fn listener_dispatch() {
    let mut events: Listeners<HoverListener> = Listeners::new();
    events.add(HoverListener(100));
    events.trigger(&mut MouseEvent(0, 0));
}

#[test]
fn move_vector_from_keys() {
    let mut control = Control::new();
    control.keys.push(KeyEvent {
        code: "KeyW".to_string(),
        alt: false,
        ctrl: false,
        meta: false,
        shift: false,
        repeat: false,
    });
    control.keys.push(KeyEvent {
        code: "KeyD".to_string(),
        alt: false,
        ctrl: false,
        meta: false,
        shift: false,
        repeat: false,
    });
    assert_eq!(control.move_vector(), Vector(1, 1));
    let idle = Control::new();
    assert_eq!(idle.move_vector(), Vector(0, 0));
}

#[test]
fn render_frame_accumulates() {
    let mut frame = RenderFrame::new();
    frame.push((Rect::new(Vector(0, 0), Vector(2, 2)), Texture::default()));
    let batch = vec![
        (Rect::new(Vector(5, 5), Vector(1, 1)), Texture::Bitmap("tree".to_string())),
    ];
    frame.append(&batch);
    assert_eq!(frame.get().len(), 2);
    frame.push_ui((Rect::new(Vector(9, 9), Vector(1, 1)), Texture::default()));
    assert_eq!(frame.get_ui().len(), 1);
    let taken = frame.flush();
    assert_eq!(taken.get().len(), 2);
    assert_eq!(frame.get().len(), 0);
}

#[test]
fn viewport_origin_and_mapping() {
    let mut vp = ViewPort::new();
    vp.set_position(Vector(100, 100));
    vp.set_size(Vector(50, 40));
    assert_eq!(vp.origin(), Vector(75, 80));
}

#[test]
fn base_groups_and_flags() {
    let mut base = EnityBase::new(
        "hero".to_string(),
        vec!["blue".to_string(), "blue".to_string(), "tall".to_string()],
        7,
    );
    assert_eq!(base.name(), "hero");
    assert_eq!(base.speed(), 7);
    assert_eq!(base.get_collision(), 1);
    assert!(!base.is_destroy());
    // Duplicate input tags are kept once.
    assert_eq!(base.groups().len(), 2);
    assert!(base.has_group("blue"));
    assert!(!base.add_group("tall"));
    assert!(base.add_group("fast"));
    assert!(base.remove_group("blue"));
    assert!(!base.has_group("blue"));
    base.set_no_collision();
    assert_eq!(base.get_collision(), 0);
    base.destroy();
    assert!(base.is_destroy());
}

#[test]
fn view_layers() {
    let mut view = EnityView::new(
        vec![(Rect::new(Vector(0, 0), Vector(2, 2)), Texture::default())],
        vec![Rect::new(Vector(0, 0), Vector(2, 2))],
    );
    assert_eq!(view.viewboxes().len(), 1);
    assert_eq!(view.hitboxes().len(), 1);
    let replaced = view.insert(
        "hat".to_string(),
        vec![(Rect::new(Vector(0, 3), Vector(1, 1)), Texture::default())],
    );
    assert!(replaced.is_none());
    assert_eq!(view.viewboxes().len(), 2);
    view.mixin(
        "hat".to_string(),
        vec![(Rect::new(Vector(0, 4), Vector(1, 1)), Texture::default())],
    );
    assert_eq!(view.viewboxes().len(), 3);
    let removed = view.remove("hat");
    assert_eq!(removed.unwrap().len(), 2);
    assert_eq!(view.viewboxes().len(), 1);
    view.mixin_hitbox("base".to_string(), vec![Rect::new(Vector(1, 1), Vector(1, 1))]);
    assert_eq!(view.hitboxes().len(), 2);
    let old_hits = view.insert_hitbox("base".to_string(), vec![]);
    assert_eq!(old_hits.unwrap().len(), 2);
    assert!(view.remove_hitbox("base").is_some());
    assert_eq!(view.hitboxes().len(), 0);
}
