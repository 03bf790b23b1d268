use vstd::prelude::*;
use crate::table::Table;

pub mod maths;
pub mod string;

verus! {

broadcast use vstd::string::group_string_axioms;

/// The floating-point functions that every context has.
#[derive(Debug, Clone, Copy, PartialEq, Eq, Structural)]
pub enum MathFn {
    Cos,
    Sin,
    Asin,
    Pow,
}

/// What a function name stands for: a string function of the library, a
/// floating-point function, or a function that the embedding program
/// registered, known by its handle.
#[derive(Debug, Clone, Copy, PartialEq, Eq, Structural)]
pub enum Callable {
    ToLower,
    ToUpper,
    Math(MathFn),
    Registered(usize),
}

impl View for Callable {
    type V = Callable;

    open spec fn view(&self) -> Callable {
        *self
    }
}

/// The functions that a new context has.
pub open spec fn builtin_functions() -> Map<Seq<char>, Callable> {
    Map::<Seq<char>, Callable>::empty()
        .insert("to_lower"@, Callable::ToLower)
        .insert("to_upper"@, Callable::ToUpper)
        .insert("cos"@, Callable::Math(MathFn::Cos))
        .insert("sin"@, Callable::Math(MathFn::Sin))
        .insert("asin"@, Callable::Math(MathFn::Asin))
        .insert("pow"@, Callable::Math(MathFn::Pow))
}

/// The functions that programs can call, by name.
pub struct Functions {
    inner: Table<Callable>,
}

impl Functions {
    pub closed spec fn wf(&self) -> bool {
        self.inner.wf()
    }

    pub closed spec fn view(&self) -> Map<Seq<char>, Callable> {
        self.inner.view()
    }

    pub fn new() -> (r: Self)
        ensures
            r.wf(),
            r@ == builtin_functions(),
    {
        let mut inner: Table<Callable> = Table::new();
        inner.insert("to_lower".to_string(), Callable::ToLower);
        inner.insert("to_upper".to_string(), Callable::ToUpper);
        inner.insert("cos".to_string(), Callable::Math(MathFn::Cos));
        inner.insert("sin".to_string(), Callable::Math(MathFn::Sin));
        inner.insert("asin".to_string(), Callable::Math(MathFn::Asin));
        inner.insert("pow".to_string(), Callable::Math(MathFn::Pow));
        Self { inner }
    }

    /// Binds `name` to `fun`, replacing an earlier binding.
    pub fn register(&mut self, name: String, fun: Callable)
        requires
            old(self).wf(),
        ensures
            final(self).wf(),
            final(self)@ == old(self)@.insert(name@, fun),
    {
        self.inner.insert(name, fun);
    }

    /// What `name` stands for, if anything.
    pub fn lookup(&self, name: &String) -> (r: Option<Callable>)
        requires
            self.wf(),
        ensures
            r == (if self@.contains_key(name@) { Some(self@[name@]) } else { None::<Callable> }),
    {
        match self.inner.get(name) {
            Some(f) => Some(*f),
            None => None,
        }
    }
}

} // verus!
