use vstd::prelude::*;

verus! {

/// Flags controlling how a shared object is opened and registered,
/// mirroring the classic `RTLD_*` constants of `dlopen`.
///
/// The value is a plain bit set over `u32`.
#[derive(Clone, Copy, PartialEq, Eq, Structural, Debug)]
pub struct OpenFlags {
    pub bits: u32,
}

impl OpenFlags {
    /// Symbols are not made available for subsequently loaded objects (the default).
    pub fn rtld_local() -> (r: OpenFlags)
        ensures
            r.bits == 0,
    {
        OpenFlags { bits: 0 }
    }

    /// Perform lazy binding: resolve symbols only when first referenced.
    pub fn rtld_lazy() -> (r: OpenFlags)
        ensures
            r.bits == 1,
    {
        OpenFlags { bits: 1 }
    }

    /// Resolve all undefined symbols before `dlopen` returns.
    pub fn rtld_now() -> (r: OpenFlags)
        ensures
            r.bits == 2,
    {
        OpenFlags { bits: 2 }
    }

    /// Do not load the object; succeed only if it is already resident.
    pub fn rtld_noload() -> (r: OpenFlags)
        ensures
            r.bits == 4,
    {
        OpenFlags { bits: 4 }
    }

    /// Place the object's own lookup scope ahead of the global scope.
    pub fn rtld_deepbind() -> (r: OpenFlags)
        ensures
            r.bits == 8,
    {
        OpenFlags { bits: 8 }
    }

    /// Make the object's symbols available to subsequently loaded objects.
    pub fn rtld_global() -> (r: OpenFlags)
        ensures
            r.bits == 256,
    {
        OpenFlags { bits: 256 }
    }

    /// Never unload the object, even when its reference count reaches zero.
    pub fn rtld_nodelete() -> (r: OpenFlags)
        ensures
            r.bits == 4096,
    {
        OpenFlags { bits: 4096 }
    }

    /// Bypass the process-global registry entirely; the handle stays private.
    pub fn custom_not_register() -> (r: OpenFlags)
        ensures
            r.bits == 1024,
    {
        OpenFlags { bits: 1024 }
    }

    /// True when every bit set in `other` is also set in `self`.
    pub open spec fn spec_contains(self, other: OpenFlags) -> bool {
        self.bits & other.bits == other.bits
    }

    /// Bit-set inclusion test, as `bitflags::contains`.
    pub fn contains(&self, other: OpenFlags) -> (r: bool)
        ensures
            r == self.spec_contains(other),
    {
        self.bits & other.bits == other.bits
    }

    /// The union of two flag sets.
    pub open spec fn spec_with(self, other: OpenFlags) -> OpenFlags {
        OpenFlags { bits: self.bits | other.bits }
    }

    /// Bit-set union, as the `|` operator of `bitflags`.
    pub fn with(&self, other: OpenFlags) -> (r: OpenFlags)
        ensures
            r == self.spec_with(other),
    {
        OpenFlags { bits: self.bits | other.bits }
    }

    /// The bits of `self` that are not in `other`.
    pub open spec fn spec_difference(self, other: OpenFlags) -> OpenFlags {
        OpenFlags { bits: self.bits & !other.bits }
    }

    /// Bit-set difference, as `bitflags::difference`.
    pub fn difference(&self, other: OpenFlags) -> (r: OpenFlags)
        ensures
            r == self.spec_difference(other),
    {
        OpenFlags { bits: self.bits & !other.bits }
    }

    /// The bits common to both flag sets.
    pub open spec fn spec_intersection(self, other: OpenFlags) -> OpenFlags {
        OpenFlags { bits: self.bits & other.bits }
    }

    /// Bit-set intersection, as the `&` operator of `bitflags`.
    pub fn intersection(&self, other: OpenFlags) -> (r: OpenFlags)
        ensures
            r == self.spec_intersection(other),
    {
        OpenFlags { bits: self.bits & other.bits }
    }
}

/// Joining a set of flags onto a record's flags never clears a bit:
/// promotion is monotone.
pub proof fn lemma_flag_promotion_monotone(old_flags: OpenFlags, requested: OpenFlags, probe: OpenFlags)
    ensures
        old_flags.spec_contains(probe) ==> old_flags.spec_with(requested).spec_contains(probe),
        old_flags.spec_with(requested).spec_contains(requested),
{
    let a = old_flags.bits;
    let b = requested.bits;
    let p = probe.bits;
    assert(a & p == p ==> (a | b) & p == p) by (bit_vector);
    assert((a | b) & b == b) by (bit_vector);
}

} // verus!
