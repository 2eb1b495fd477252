//! The per-compilation context: a bump arena that owns every tree node
//! and auxiliary slice, and the identifier interner. Both are created once
//! per compilation unit and torn down together when the context is
//! dropped; no finer-grained lifecycle exists.

use vstd::prelude::*;

use crate::ident::{IdentCache, IdentName};

verus! {

/// Declares bumpalo's arena type so that it can stand in fields; its
/// values are opaque to verification.
#[verifier::external_type_specification]
#[verifier::external_body]
pub struct ExBump<const MIN_ALIGN: usize>(bumpalo::Bump<MIN_ALIGN>);

/// Relies on `bumpalo::Bump::new`: a fresh, empty arena.
#[verifier::external_body]
fn new_arena() -> bumpalo::Bump {
    bumpalo::Bump::new()
}

/// Owns the arena and the interner for one compilation unit. Everything
/// they hand out stays valid exactly as long as this context lives and is
/// reclaimed in bulk when it is dropped.
pub struct Ctx {
    arena: bumpalo::Bump,
    ident_cache: IdentCache,
}

impl Ctx {
    /// The spellings interned so far, in insertion order.
    pub closed spec fn idents(&self) -> Seq<Seq<char>> {
        self.ident_cache.strings()
    }

    /// The interner holds no duplicate spelling.
    pub closed spec fn wf(&self) -> bool {
        self.ident_cache.wf()
    }

    pub fn new() -> (c: Ctx)
        ensures
            c.wf(),
            c.idents() == Seq::<Seq<char>>::empty(),
    {
        Ctx { arena: new_arena(), ident_cache: IdentCache::new() }
    }

    /// Moves a value into arena-owned storage and returns a reference with
    /// the arena's lifetime. Relies on `bumpalo::Bump::alloc`: the
    /// reference points at exactly the moved value, and bumpalo never
    /// frees or reuses an allocation while the arena lives, so the
    /// referenced value is stable for the context's whole lifetime.
    #[verifier::external_body]
    pub fn alloc_value<T>(&self, val: T) -> (r: &T)
        ensures
            *r == val,
    {
        self.arena.alloc(val)
    }

    /// Copies a slice into arena-owned contiguous storage. Relies on
    /// `bumpalo::Bump::alloc_slice_copy`: the returned slice holds exactly
    /// the same elements, in order, and stays valid while the arena lives.
    #[verifier::external_body]
    pub fn alloc_slice_copy<'a, T: Copy>(&'a self, src: &[T]) -> (r: &'a [T])
        ensures
            r@ == src@,
    {
        self.arena.alloc_slice_copy(src)
    }

    /// Interns an identifier spelling through the owned interner: equal
    /// content gives an equal handle, and the store only grows.
    pub fn new_ident_name(&mut self, s: &str) -> (h: IdentName)
        requires
            old(self).wf(),
        ensures
            final(self).wf(),
            h.id < final(self).idents().len(),
            final(self).idents()[h.id as int] == s@,
            old(self).idents().contains(s@) ==> final(self).idents() == old(self).idents(),
            !old(self).idents().contains(s@) ==> final(self).idents() == old(
                self,
            ).idents().push(s@),
            forall|i: int|
                0 <= i < old(self).idents().len() ==> final(self).idents()[i] == old(
                    self,
                ).idents()[i],
    {
        self.ident_cache.new_ident_name(s)
    }
}

/// A well-formed context interns no spelling twice.
pub proof fn lemma_ctx_idents_distinct(c: &Ctx)
    requires
        c.wf(),
    ensures
        crate::ident::distinct_strings(c.idents()),
{
}

/// Law: two handles issued by one well-formed context are equal exactly
/// when the spellings they denote are equal, so comparing them needs no
/// string comparison.
pub proof fn lemma_ctx_handle_eq_iff_string_eq(c: &Ctx, a: IdentName, b: IdentName)
    requires
        c.wf(),
        a.id < c.idents().len(),
        b.id < c.idents().len(),
    ensures
        a == b <==> c.idents()[a.id as int] == c.idents()[b.id as int],
{
    lemma_ctx_idents_distinct(c);
    crate::ident::lemma_handle_eq_iff_string_eq(c.idents(), a, b);
}

} // verus!
