//! Handles of the native parsing library: the single parsing context of a
//! process, and the index and translation unit that live inside it.

use std::marker::PhantomData;
use vstd::prelude::*;

verus! {

/// The one place a process has for a parsing context. It is free or taken.
pub struct ClangSlot {
    available: bool,
}

impl ClangSlot {
    /// Whether the slot is free.
    pub closed spec fn is_available(&self) -> bool {
        self.available
    }

    /// A free slot.
    pub fn new() -> (slot: ClangSlot)
        ensures
            slot.is_available(),
    {
        ClangSlot { available: true }
    }

    /// Whether the slot is free.
    pub fn available(&self) -> (free: bool)
        ensures
            free == self.is_available(),
    {
        self.available
    }
}

/// The parsing context of a process. At most one is held per slot at a time.
#[derive(Debug)]
pub struct Clang;

impl Clang {
    /// Takes the slot. Succeeds exactly when the slot was free; either way
    /// the slot is taken afterwards.
    pub fn new(slot: &mut ClangSlot) -> (context: Result<Clang, ()>)
        ensures
            context.is_ok() == old(slot).is_available(),
            !final(slot).is_available(),
    {
        let was_available = slot.available;
        slot.available = false;
        if was_available {
            Ok(Clang)
        } else {
            Err(())
        }
    }

    /// Gives the slot back, as the end of the context's life does.
    pub fn release(self, slot: &mut ClangSlot)
        ensures
            final(slot).is_available(),
    {
        slot.available = true;
    }
}

/// A collection of translation units, known by the address of its native
/// object, which is never the null address. It borrows from the parsing
/// context.
pub struct Index<'c> {
    ptr: usize,
    _marker: PhantomData<&'c Clang>,
}

impl<'c> Index<'c> {
    #[verifier::type_invariant]
    spec fn not_null(self) -> bool {
        self.ptr != 0
    }

    /// The address of the native object.
    pub closed spec fn address(&self) -> usize {
        self.ptr
    }

    /// Accepts every address but the null address.
    pub fn from_ptr(ptr: usize) -> (index: Result<Index<'c>, ()>)
        ensures
            index.is_err() == (ptr == 0),
            index matches Ok(i) ==> i.address() == ptr,
    {
        if ptr == 0 {
            Err(())
        } else {
            Ok(Index { ptr, _marker: PhantomData })
        }
    }

    /// The address of the native object. It is not the null address.
    pub fn ptr(&self) -> (ptr: usize)
        ensures
            ptr == self.address(),
            ptr != 0,
    {
        proof {
            use_type_invariant(self);
        }
        self.ptr
    }
}

/// A parsed translation unit, known by the address of its native object,
/// which is never the null address. It borrows from the index that holds
/// it.
pub struct TranslationUnit<'i> {
    ptr: usize,
    _marker: PhantomData<&'i Index<'i>>,
}

impl<'i> TranslationUnit<'i> {
    #[verifier::type_invariant]
    spec fn not_null(self) -> bool {
        self.ptr != 0
    }

    /// The address of the native object.
    pub closed spec fn address(&self) -> usize {
        self.ptr
    }

    /// Accepts every address but the null address.
    pub fn from_ptr(ptr: usize) -> (unit: Result<TranslationUnit<'i>, ()>)
        ensures
            unit.is_err() == (ptr == 0),
            unit matches Ok(u) ==> u.address() == ptr,
    {
        if ptr == 0 {
            Err(())
        } else {
            Ok(TranslationUnit { ptr, _marker: PhantomData })
        }
    }

    /// The address of the native object. It is not the null address.
    pub fn ptr(&self) -> (ptr: usize)
        ensures
            ptr == self.address(),
            ptr != 0,
    {
        proof {
            use_type_invariant(self);
        }
        self.ptr
    }
}

} // verus!
