//! The objects that activations work on.
use vstd::prelude::*;
use crate::oops::{ClosureOop, ContextOop, HomeRef, MethodOop, Oop};

verus! {

/// A method or block, as far as an activation reads it.
#[derive(Clone, Copy, Debug, PartialEq, Eq, Structural)]
pub struct MethodObj {
    pub argc: usize,
    pub ntemps: usize,
    /// An activation has a context of its own.
    pub has_ctx: bool,
    pub is_block: bool,
    /// A closure of the block holds the context around it.
    pub captures_ctx: bool,
    pub nctx: usize,
    /// How often it has been activated.
    pub invocations: u32,
    /// Never to be compiled.
    pub compile_disabled: bool,
}

/// A closure: the receiver, the context where the block captures it, then the captured values.
#[derive(Debug)]
pub struct ClosureObj {
    pub method: MethodOop,
    pub home: HomeRef,
    pub copied: Vec<Oop>,
}

/// A context: variables that outlive their activation, and the context around it.
#[derive(Debug)]
pub struct ContextObj {
    pub home_hint: Oop,
    pub slots: Vec<Oop>,
}

#[derive(Debug)]
pub enum Obj {
    Plain,
    Method(MethodObj),
    Closure(ClosureObj),
    Context(ContextObj),
}

/// The number of objects that words can tell apart.
pub const MAX_OBJECTS: u64 = 0x0FFF_FFFF_FFFF_FFFF;

/// The objects. Each has a place; its word is that place's address with the pointer tag.
#[derive(Debug)]
pub struct Heap {
    pub objects: Vec<Obj>,
}

/// The word of the object at a place.
pub open spec fn place_word(i: nat) -> u64 {
    (8 * i + 1) as u64
}

/// The place that a word points to.
pub open spec fn word_place(w: u64) -> nat {
    ((w - 1) / 8) as nat
}

impl Heap {
    /// Whether a word points to an object.
    pub open spec fn points(&self, w: u64) -> bool {
        w % 8 == 1 && word_place(w) < self.objects@.len()
    }

    pub open spec fn is_method(&self, w: u64) -> bool {
        self.points(w) && self.objects@[word_place(w) as int] is Method
    }

    /// The method that a word points to.
    pub open spec fn method_at(&self, w: u64) -> MethodObj {
        self.objects@[word_place(w) as int]->Method_0
    }

    pub open spec fn is_closure(&self, w: u64) -> bool {
        self.points(w) && self.objects@[word_place(w) as int] is Closure
    }

    pub open spec fn closure_at(&self, w: u64) -> ClosureObj {
        self.objects@[word_place(w) as int]->Closure_0
    }

    pub open spec fn is_context(&self, w: u64) -> bool {
        self.points(w) && self.objects@[word_place(w) as int] is Context
    }

    pub open spec fn context_at(&self, w: u64) -> ContextObj {
        self.objects@[word_place(w) as int]->Context_0
    }

    /// Room for one more object.
    pub open spec fn has_room(&self) -> bool {
        self.objects@.len() < MAX_OBJECTS
    }

    /// One object more than before, and those before unchanged.
    pub open spec fn added(&self, before: &Heap) -> bool {
        &&& self.objects@.len() == before.objects@.len() + 1
        &&& self.objects@.drop_last() == before.objects@
    }

    pub fn new() -> (h: Heap)
        ensures
            h.objects@.len() == 0,
    {
        Heap { objects: Vec::new() }
    }

    fn place(&self, w: u64) -> (r: Option<usize>)
        ensures
            match r {
                Some(i) => self.points(w) && i == word_place(w),
                None => !self.points(w),
            },
    {
        if w % 8 != 1 {
            return None;
        }
        let i: u64 = (w - 1) / 8;
        let n: usize = self.objects.len();
        if i < n as u64 {
            Some(i as usize)
        } else {
            None
        }
    }

    /// Adds an object and answers its word.
    pub fn put(&mut self, o: Obj) -> (w: u64)
        requires
            old(self).has_room(),
        ensures
            final(self).objects@ == old(self).objects@.push(o),
            final(self).added(old(self)),
            w == place_word(old(self).objects@.len()),
            final(self).points(w),
            word_place(w) == old(self).objects@.len(),
    {
        let i: usize = self.objects.len();
        self.objects.push(o);
        assert(self.objects@.drop_last() =~= old(self).objects@);
        i as u64 * 8 + 1
    }

    /// The method that a word points to, if it does.
    pub fn method_of(&self, o: Oop) -> (r: Option<MethodOop>)
        ensures
            match r {
                Some(m) => self.is_method(o.raw()) && m.0 == o.raw(),
                None => !self.is_method(o.raw()),
            },
    {
        match self.place(o.0) {
            Some(i) => match &self.objects[i] {
                Obj::Method(_) => Some(MethodOop(o.0)),
                _ => None,
            },
            None => None,
        }
    }

    pub fn closure_of(&self, o: Oop) -> (r: Option<ClosureOop>)
        ensures
            match r {
                Some(c) => self.is_closure(o.raw()) && c.0 == o.raw(),
                None => !self.is_closure(o.raw()),
            },
    {
        match self.place(o.0) {
            Some(i) => match &self.objects[i] {
                Obj::Closure(_) => Some(ClosureOop(o.0)),
                _ => None,
            },
            None => None,
        }
    }

    pub fn context_of(&self, o: Oop) -> (r: Option<ContextOop>)
        ensures
            match r {
                Some(c) => self.is_context(o.raw()) && c.0 == o.raw(),
                None => !self.is_context(o.raw()),
            },
    {
        match self.place(o.0) {
            Some(i) => match &self.objects[i] {
                Obj::Context(_) => Some(ContextOop(o.0)),
                _ => None,
            },
            None => None,
        }
    }

    pub fn method(&self, m: MethodOop) -> (r: MethodObj)
        requires
            self.is_method(m.0),
        ensures
            r == self.method_at(m.0),
    {
        let i: usize = ((m.0 - 1) / 8) as usize;
        assert(i < self.objects.len());
        match &self.objects[i] {
            Obj::Method(x) => *x,
            _ => MethodObj {
                argc: 0,
                ntemps: 0,
                has_ctx: false,
                is_block: false,
                captures_ctx: false,
                nctx: 0,
                invocations: 0,
                compile_disabled: false,
            },
        }
    }

    /// Replaces a method's state.
    pub fn set_method(&mut self, m: MethodOop, v: MethodObj)
        requires
            old(self).is_method(m.0),
        ensures
            final(self).objects@ == old(self).objects@.update(word_place(m.0) as int, Obj::Method(v)),
    {
        let i: usize = ((m.0 - 1) / 8) as usize;
        assert(i < self.objects.len());
        self.objects.set(i, Obj::Method(v));
    }

    /// A closure's block.
    pub fn closure_method(&self, c: ClosureOop) -> (r: MethodOop)
        requires
            self.is_closure(c.0),
        ensures
            r == self.closure_at(c.0).method,
    {
        let i: usize = ((c.0 - 1) / 8) as usize;
        assert(i < self.objects.len());
        match &self.objects[i] {
            Obj::Closure(x) => x.method,
            _ => MethodOop(0),
        }
    }

    /// A closure's home.
    pub fn closure_home(&self, c: ClosureOop) -> (r: HomeRef)
        requires
            self.is_closure(c.0),
        ensures
            r == self.closure_at(c.0).home,
    {
        let i: usize = ((c.0 - 1) / 8) as usize;
        assert(i < self.objects.len());
        match &self.objects[i] {
            Obj::Closure(x) => x.home,
            _ => HomeRef { proc: 0, serial: 0, fp: 0 },
        }
    }

    /// How many words a closure holds.
    pub fn ncopied(&self, c: ClosureOop) -> (r: usize)
        requires
            self.is_closure(c.0),
        ensures
            r == self.closure_at(c.0).copied@.len(),
    {
        let i: usize = ((c.0 - 1) / 8) as usize;
        assert(i < self.objects.len());
        match &self.objects[i] {
            Obj::Closure(x) => x.copied.len(),
            _ => 0,
        }
    }

    /// A word that a closure holds.
    pub fn copied(&self, c: ClosureOop, k: usize) -> (r: Oop)
        requires
            self.is_closure(c.0),
            k < self.closure_at(c.0).copied@.len(),
        ensures
            r == self.closure_at(c.0).copied@[k as int],
    {
        let i: usize = ((c.0 - 1) / 8) as usize;
        assert(i < self.objects.len());
        match &self.objects[i] {
            Obj::Closure(x) => x.copied[k],
            _ => Oop(0),
        }
    }
}

} // verus!
