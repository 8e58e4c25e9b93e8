use vstd::prelude::*;

verus! {

/// A slot that is filled at most once: the first `init` stores its value
/// and later ones are ignored.
pub struct InitCell<T>(Option<T>);

impl<T> View for InitCell<T> {
    type V = Option<T>;

    closed spec fn view(&self) -> Option<T> {
        self.0
    }
}

impl<T> InitCell<T> {
    /// An empty cell.
    pub fn new() -> (r: Self)
        ensures
            r@ is None,
    {
        InitCell(None)
    }

    pub fn is_init(&self) -> (r: bool)
        ensures
            r == self@ is Some,
    {
        self.0.is_some()
    }

    /// Stores `value` when the cell is empty; a filled cell keeps its value.
    pub fn init(&mut self, value: T)
        ensures
            old(self)@ is Some ==> final(self)@ == old(self)@,
            old(self)@ is None ==> final(self)@ == Some(value),
    {
        if !self.is_init() {
            self.0 = Some(value);
        }
    }

    /// The stored value, or `None` when the cell is empty.
    pub fn get(&self) -> (r: Option<&T>)
        ensures
            r is Some <==> self@ is Some,
            r is Some ==> *r->0 == self@->0,
    {
        self.0.as_ref()
    }

    /// The stored value of a cell that is known to be filled.
    pub fn get_unchecked(&self) -> (r: &T)
        requires
            self@ is Some,
        ensures
            *r == self@->0,
    {
        self.0.as_ref().unwrap()
    }
}

/// A value built on first access by the function the cell was made with.
#[verifier::reject_recursive_types(T)]
pub struct AutoCell<T, F: FnOnce() -> T = fn() -> T> {
    pending: Option<F>,
    value: Option<T>,
}

impl<T, F: FnOnce() -> T> AutoCell<T, F> {
    /// The value, once built.
    pub closed spec fn value(&self) -> Option<T> {
        self.value
    }

    /// The function that builds the value, until it has run.
    pub closed spec fn builder(&self) -> Option<F> {
        self.pending
    }

    /// Exactly one of the builder and the value is present.
    pub open spec fn wf(&self) -> bool {
        self.builder() is Some != self.value() is Some
    }

    /// A cell whose value `f` builds on first access.
    pub fn new(f: F) -> (r: Self)
        ensures
            r.builder() == Some(f),
            r.value() is None,
            r.wf(),
    {
        AutoCell { pending: Some(f), value: None }
    }

    pub fn is_init(&self) -> (r: bool)
        ensures
            r == self.value() is Some,
    {
        self.value.is_some()
    }

    /// Builds the value if it is not built yet.
    fn init(&mut self)
        requires
            old(self).wf(),
            old(self).builder() matches Some(f) ==> f.requires(()),
        ensures
            final(self).wf(),
            final(self).value() is Some,
            old(self).value() is Some ==> final(self).value() == old(self).value(),
            old(self).builder() matches Some(f) ==> f.ensures((), final(self).value()->0),
    {
        if !self.is_init() {
            match self.pending.take() {
                Some(f) => {
                    self.value = Some(f());
                },
                None => {},
            }
        }
    }

    /// The value, built by the cell's function on the first call.
    pub fn get(&mut self) -> (r: &T)
        requires
            old(self).wf(),
            old(self).builder() matches Some(f) ==> f.requires(()),
        ensures
            final(self).wf(),
            final(self).value() == Some(*r),
            old(self).value() is Some ==> *r == old(self).value()->0,
            old(self).builder() matches Some(f) ==> f.ensures((), *r),
    {
        self.init();
        self.value.as_ref().unwrap()
    }
}

} // verus!
