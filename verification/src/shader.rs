use vstd::prelude::*;

verus! {

/// The shader location of the per-vertex mesh offset.
pub const MESH_OFFSET_LOCATION: u32 = 20;

/// The shader locations of the standard vertex attributes that a mesh has, in order
/// (position, normal, two UV sets, tangent, colour, joint index, joint weight at
/// locations 0 to 7), followed by the mesh offset's location.
pub open spec fn locations_of(present: Seq<bool>) -> Seq<u32>
    decreases present.len(),
{
    if present.len() == 0 {
        Seq::empty()
    } else {
        let prev = locations_of(present.drop_last());
        if present.last() {
            prev.push((present.len() - 1) as u32)
        } else {
            prev
        }
    }
}

/// A location is listed exactly where the mesh has the attribute at that index, and
/// the locations come in increasing order.
pub proof fn lemma_locations_exact(present: Seq<bool>)
    requires
        present.len() <= 8,
    ensures
        forall|k: u32| #[trigger]
            locations_of(present).contains(k) <==> (k < present.len() && present[k as int]),
        forall|i: int, j: int|
            0 <= i < j < locations_of(present).len() ==> #[trigger] locations_of(present)[i]
                < #[trigger] locations_of(present)[j],
        forall|i: int|
            0 <= i < locations_of(present).len() ==> #[trigger] locations_of(present)[i]
                < present.len(),
    decreases present.len(),
{
    if present.len() > 0 {
        let prev_in = present.drop_last();
        lemma_locations_exact(prev_in);
        let prev = locations_of(prev_in);
        let last = (present.len() - 1) as u32;
        let r = locations_of(present);
        assert forall|k: u32| #[trigger]
            r.contains(k) <==> (k < present.len() && present[k as int]) by {
            if r.contains(k) {
                let i = choose|i: int| 0 <= i < r.len() && r[i] == k;
                if i < prev.len() {
                    assert(r[i] == prev[i]);
                    assert(prev.contains(k));
                    assert(present[k as int] == prev_in[k as int]);
                }
            }
            if k < present.len() && present[k as int] {
                if k == last {
                    assert(r[r.len() - 1] == k);
                } else {
                    assert(prev_in[k as int] == present[k as int]);
                    assert(prev.contains(k));
                    let i = choose|i: int| 0 <= i < prev.len() && prev[i] == k;
                    assert(r[i] == k);
                }
            }
        }
    }
}

/// The shader locations of a vertex layout: each standard attribute the mesh has at
/// its fixed location, then the mesh offset.
pub fn vertex_locations(present: [bool; 8]) -> (r: Vec<u32>)
    ensures
        r@ == locations_of(present@).push(MESH_OFFSET_LOCATION),
        forall|k: u32| k < 8 ==> (#[trigger] r@.contains(k) <==> present[k as int]),
{
    let mut r: Vec<u32> = Vec::new();
    let mut k: usize = 0;
    assert(present@.take(0) =~= Seq::<bool>::empty());
    while k < 8
        invariant
            k <= 8,
            present@.len() == 8,
            r@ == locations_of(present@.take(k as int)),
        decreases 8 - k,
    {
        assert(present@.take(k as int + 1).drop_last() =~= present@.take(k as int));
        assert(present@.take(k as int + 1).last() == present@[k as int]);
        if present[k] {
            r.push(k as u32);
        }
        k += 1;
    }
    assert(present@.take(8) =~= present@);
    let ghost locs = r@;
    r.push(MESH_OFFSET_LOCATION);
    proof {
        lemma_locations_exact(present@);
        assert forall|k: u32| k < 8 implies (#[trigger] r@.contains(k) <==> present[k as int]) by {
            assert(locs.contains(k) <==> present@[k as int]);
            if r@.contains(k) {
                let i = choose|i: int| 0 <= i < r@.len() && r@[i] == k;
                assert(i < locs.len());
                assert(locs[i] == k);
            }
            if present@[k as int] {
                assert(locs.contains(k));
                let i = choose|i: int| 0 <= i < locs.len() && locs[i] == k;
                assert(r@[i] == k);
            }
        }
    }
    r
}

} // verus!
