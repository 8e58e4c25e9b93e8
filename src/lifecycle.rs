use vstd::prelude::*;

verus! {

/// What a program running on the host implements: the work of one frame.
pub trait AppHandler {
    /// The animation loop itself, called once per frame.
    fn draw(&mut self);
}

/// The slot that holds the program's single handler once it is set up.
pub struct AppCell<T: AppHandler>(Option<T>);

impl<T: AppHandler> View for AppCell<T> {
    type V = Option<T>;

    closed spec fn view(&self) -> Option<T> {
        self.0
    }
}

impl<T: AppHandler> AppCell<T> {
    /// An empty slot.
    pub fn new() -> (r: Self)
        ensures
            r@ is None,
    {
        AppCell(None)
    }

    pub fn is_init(&self) -> (r: bool)
        ensures
            r == self@ is Some,
    {
        self.0.is_some()
    }

    /// Stores `app` when the slot is empty; a set slot keeps its handler.
    pub fn init(&mut self, app: T)
        ensures
            old(self)@ is Some ==> final(self)@ == old(self)@,
            old(self)@ is None ==> final(self)@ == Some(app),
    {
        if !self.is_init() {
            self.0 = Some(app);
        }
    }

    /// The handler, to be changed in place, or `None` before it is set.
    pub fn get_mut(&mut self) -> (r: Option<&mut T>)
        ensures
            old(self)@ is None ==> r is None && final(self)@ is None,
            old(self)@ is Some ==> r is Some && *r->0 == old(self)@->0 && final(self)@ == Some(
                *final(r->0),
            ),
    {
        self.0.as_mut()
    }

    /// The handler, or `None` before it is set.
    pub fn get(&self) -> (r: Option<&T>)
        ensures
            r is Some <==> self@ is Some,
            r is Some ==> *r->0 == self@->0,
    {
        self.0.as_ref()
    }
}

} // verus!
