use pagealloc::{AppCell, AppHandler, AutoCell, InitCell};
use std::cell::Cell;
use std::rc::Rc;

#[test]
fn init_cell_keeps_the_first_value() {
    let mut cell: InitCell<u32> = InitCell::new();
    assert!(!cell.is_init());
    assert_eq!(cell.get(), None);
    cell.init(7);
    assert!(cell.is_init());
    cell.init(9);
    assert_eq!(cell.get(), Some(&7));
    assert_eq!(*cell.get_unchecked(), 7);
}

#[test]
fn auto_cell_builds_once() {
    let calls = Rc::new(Cell::new(0u32));
    let c = calls.clone();
    let mut cell = AutoCell::new(move || {
        c.set(c.get() + 1);
        42u64
    });
    assert!(!cell.is_init());
    assert_eq!(calls.get(), 0);
    assert_eq!(*cell.get(), 42);
    assert!(cell.is_init());
    assert_eq!(*cell.get(), 42);
    assert_eq!(calls.get(), 1);
}

struct Counter {
    frames: u32,
}

impl AppHandler for Counter {
    fn draw(&mut self) {
        self.frames += 1;
    }
}

#[test]
fn app_cell_runs_frames_on_the_first_handler() {
    let mut app: AppCell<Counter> = AppCell::new();
    assert!(!app.is_init());
    assert!(app.get_mut().is_none());
    app.init(Counter { frames: 0 });
    app.init(Counter { frames: 100 });
    assert!(app.is_init());
    app.get_mut().unwrap().draw();
    app.get_mut().unwrap().draw();
    assert_eq!(app.get().unwrap().frames, 2);
}
