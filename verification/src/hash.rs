//! Field elements and four-element digests.

use vstd::prelude::*;

verus! {

/// The order of the Goldilocks field.
pub const GOLDILOCKS_ORDER: u64 = 0xffff_ffff_0000_0001;

/// A digest: four canonical field elements.
#[derive(Clone, Copy, Debug, PartialEq, Eq, Structural, Hash)]
pub struct HashOut {
    pub e0: u64,
    pub e1: u64,
    pub e2: u64,
    pub e3: u64,
}

/// The digest of zeros.
pub open spec fn zero_hash() -> HashOut {
    HashOut { e0: 0, e1: 0, e2: 0, e3: 0 }
}

impl HashOut {
    /// The four elements in order.
    pub open spec fn elements(self) -> Seq<u64> {
        seq![self.e0, self.e1, self.e2, self.e3]
    }

    /// The digest of zeros.
    pub fn zero() -> (r: Self)
        ensures
            r == zero_hash(),
    {
        HashOut { e0: 0, e1: 0, e2: 0, e3: 0 }
    }

    /// The digest with the given elements.
    pub fn from_elements(e: [u64; 4]) -> (r: Self)
        ensures
            r.elements() == e@,
    {
        let r = HashOut { e0: e[0], e1: e[1], e2: e[2], e3: e[3] };
        assert(r.elements() =~= e@);
        r
    }
}

/// Whether the sponge `h` may give `out` for `elements`.
pub open spec fn hashed<H: Fn(&Vec<u64>) -> HashOut>(h: H, elements: Seq<u64>, out: HashOut) -> bool {
    exists|v: Vec<u64>| v@ == elements && #[trigger] call_ensures(h, (&v,), out)
}

/// Whether the sponge `h` can be asked about everything.
pub open spec fn total_sponge<H: Fn(&Vec<u64>) -> HashOut>(h: H) -> bool {
    forall|v: Vec<u64>| #[trigger] call_requires(h, (&v,))
}

/// Whether `h` compresses any two digests.
pub open spec fn total<H: Fn(HashOut, HashOut) -> HashOut>(h: H) -> bool {
    forall|l: HashOut, r: HashOut| #[trigger] call_requires(h, (l, r))
}

/// Whether `h` may compress `l` and `r` to `out`.
pub open spec fn compresses<H: Fn(HashOut, HashOut) -> HashOut>(
    h: H,
    l: HashOut,
    r: HashOut,
    out: HashOut,
) -> bool {
    call_ensures(h, (l, r), out)
}

/// Whether `h` gives one digest for each two.
pub open spec fn functional<H: Fn(HashOut, HashOut) -> HashOut>(h: H) -> bool {
    forall|l: HashOut, r: HashOut, a: HashOut, b: HashOut| #[trigger]
        compresses(h, l, r, a) && #[trigger] compresses(h, l, r, b) ==> a == b
}

/// Whether the sponge `h` gives one digest for each input.
pub open spec fn functional_sponge<H: Fn(&Vec<u64>) -> HashOut>(h: H) -> bool {
    forall|e: Seq<u64>, a: HashOut, b: HashOut| #[trigger]
        hashed(h, e, a) && #[trigger] hashed(h, e, b) ==> a == b
}

/// The digest of `elements` by the sponge `h`.
pub fn sponge<H: Fn(&Vec<u64>) -> HashOut>(h: &H, elements: &Vec<u64>) -> (r: HashOut)
    requires
        total_sponge(*h),
    ensures
        hashed(*h, elements@, r),
{
    h(elements)
}

/// Appends the elements of `h` to `out`.
pub fn push_hash(out: &mut Vec<u64>, h: HashOut)
    ensures
        final(out)@ == old(out)@ + h.elements(),
{
    out.push(h.e0);
    out.push(h.e1);
    out.push(h.e2);
    out.push(h.e3);
    assert(out@ =~= old(out)@ + h.elements());
}

/// Whether no two of the inputs that the sponge `h` takes have the same digest.
pub open spec fn injective_sponge<H: Fn(&Vec<u64>) -> HashOut>(h: H) -> bool {
    forall|a: Seq<u64>, b: Seq<u64>, out: HashOut| #[trigger]
        hashed(h, a, out) && #[trigger] hashed(h, b, out) ==> a == b
}

/// Whether the sponge `h` never gives the digest of zeros.
pub open spec fn never_zero<H: Fn(&Vec<u64>) -> HashOut>(h: H) -> bool {
    forall|e: Seq<u64>| !(#[trigger] hashed(h, e, zero_hash()))
}

/// A digest is determined by its elements.
pub proof fn elements_are_faithful(a: HashOut, b: HashOut)
    requires
        a.elements() == b.elements(),
    ensures
        a == b,
{
    let (x, y) = (a.elements(), b.elements());
    assert(x[0] == y[0] && x[1] == y[1] && x[2] == y[2] && x[3] == y[3]);
}

/// Whether no two pairs of digests that `h` takes are compressed to the same one.
pub open spec fn injective<H: Fn(HashOut, HashOut) -> HashOut>(h: H) -> bool {
    forall|l: HashOut, r: HashOut, x: HashOut, y: HashOut, out: HashOut| #[trigger]
        compresses(h, l, r, out) && #[trigger] compresses(h, x, y, out) ==> l == x && r == y
}

} // verus!
