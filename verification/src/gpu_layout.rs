//! The bookkeeping of the GPU side: how a GPU vector grows, where its items lie, and how
//! decal textures are numbered.

use vstd::prelude::*;

verus! {

/// The id of a decal texture.
pub type DecalTextureID = usize;

/// Whether `len` bytes are exactly the RGBA data of a texture of `dims.0` by `dims.1` pixels,
/// four bytes per pixel.
pub fn rgba_len_matches(len: usize, dims: (u32, u32)) -> (r: bool)
    ensures
        r == (len as int == dims.0 as int * dims.1 as int * 4),
{
    let w: u128 = dims.0 as u128;
    let h: u128 = dims.1 as u128;
    assert(w * h <= 0xffff_ffff_ffff_ffff_ffff_ffff) by (nonlinear_arith)
        requires
            w <= 0xffff_ffff,
            h <= 0xffff_ffff,
    ;
    let area: u128 = w * h;
    (len as u128) == area * 4
}

/// The capacity that a GPU vector of capacity `capacity` takes to hold `needed` items: it
/// keeps its capacity when that is enough; otherwise it grows by half plus one, or to
/// `needed` when that growth is still too little.
pub open spec fn spec_grown_capacity(capacity: int, needed: int) -> int {
    if needed <= capacity {
        capacity
    } else if needed <= capacity * 3 / 2 + 1 {
        capacity * 3 / 2 + 1
    } else {
        needed
    }
}

/// The capacity that a GPU vector of capacity `capacity` takes to hold `needed` items (see
/// [`spec_grown_capacity`]); it is never less than either.
pub fn grown_capacity(capacity: usize, needed: usize) -> (c: usize)
    requires
        capacity < needed ==> capacity * 3 <= usize::MAX,
    ensures
        c == spec_grown_capacity(capacity as int, needed as int),
        c >= needed,
        c >= capacity,
{
    if capacity < needed {
        let grown = (capacity * 3) / 2 + 1;
        if grown < needed {
            needed
        } else {
            grown
        }
    } else {
        capacity
    }
}

/// The byte range of each of the first `len` items of a GPU vector whose items are `size`
/// bytes: item `n` lies from `n * size` up to, but not including, `(n + 1) * size`.
pub fn byte_ranges(len: usize, size: usize) -> (r: Vec<(u64, u64)>)
    requires
        len * size <= usize::MAX,
        len * size <= u64::MAX,
    ensures
        r@.len() == len,
        forall|n: int| 0 <= n < len ==> #[trigger] r@[n] == ((n * size) as u64, ((n + 1) * size) as u64),
{
    let mut r: Vec<(u64, u64)> = Vec::new();
    let mut n: usize = 0;
    while n < len
        invariant
            n <= len,
            len * size <= usize::MAX,
            len * size <= u64::MAX,
            r@.len() == n,
            forall|k: int| 0 <= k < n ==> #[trigger] r@[k] == ((k * size) as u64, ((k + 1) * size) as u64),
        decreases len - n,
    {
        proof {
            assert((n + 1) * size <= len * size) by (nonlinear_arith)
                requires
                    n < len,
            ;
            assert(0 <= n * size <= (n + 1) * size) by (nonlinear_arith);
        }
        let start = n * size;
        let end = (n + 1) * size;
        r.push((start as u64, end as u64));
        n = n + 1;
    }
    r
}

/// Hands out decal texture ids: 1, 2, 3 and so on.
#[derive(Debug, Clone)]
pub struct DecalIDGenerator {
    last: usize,
}

impl DecalIDGenerator {
    /// The last id handed out, 0 before the first.
    pub closed spec fn last(&self) -> usize {
        self.last
    }

    /// The last id handed out, 0 before the first.
    pub fn last_id(&self) -> (l: usize)
        ensures
            l == self.last(),
    {
        self.last
    }

    /// A generator whose first id is 1.
    pub fn new() -> (g: Self)
        ensures
            g.last() == 0,
    {
        DecalIDGenerator { last: 0 }
    }

    /// The next id: one more than the last one handed out.
    pub fn get(&mut self) -> (id: DecalTextureID)
        requires
            old(self).last() < usize::MAX,
        ensures
            id == old(self).last() + 1,
            final(self).last() == id,
    {
        self.last = self.last + 1;
        self.last
    }
}

/// A generator never hands out the same id twice: an id handed out after another one is
/// greater than it.
pub proof fn lemma_ids_increase(first: DecalTextureID, g: DecalIDGenerator, second: DecalTextureID)
    requires
        first <= g.last(),
        second == g.last() + 1,
    ensures
        first < second,
{
}

} // verus!
