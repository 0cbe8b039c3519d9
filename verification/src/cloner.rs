//! The object graph cloner: deep-copies an object, and everything it
//! transitively references, from a source document's identity space into
//! a destination document's identity space.
//!
//! The identity map makes the algorithm safe against shared sub-objects
//! and reference cycles: a fresh destination identity is reserved and
//! registered *before* the children are visited, so a child that refers
//! back to an ancestor finds the mapping already present and stops.  The
//! destination document tolerates the transient state in which an
//! identity has been reserved but its object not yet written.

use vstd::prelude::*;
use crate::ImportError;
use crate::document::{Document, IdentityMap};
use crate::object::{
    copy_bytes, entries_view, lemma_entries_view, lemma_refs_entries, lemma_refs_seq,
    lemma_rename_entries, lemma_rename_seq, lemma_rename_stable, lemma_view_els, obj_refs, rename,
    rename_entries, rename_seq, refs_entries, refs_seq, view_els, DictEntry, Object, ObjectId,
    ObjectV,
};

verus! {

broadcast use vstd::seq::group_seq_axioms, vstd::std_specs::vec::group_vec_axioms, vstd::set::group_set_axioms, vstd::map::group_map_axioms;

/// How many source identities the identity map has not yet covered.
pub open spec fn unmapped(srcv: Map<ObjectId, ObjectV>, m: Map<ObjectId, ObjectId>) -> nat {
    srcv.dom().difference(m.dom()).len()
}

/// No two source identities share a destination identity.
pub open spec fn map_injective(m: Map<ObjectId, ObjectId>) -> bool {
    forall|a: ObjectId, b: ObjectId|
        #![trigger m[a], m[b]]
        m.dom().contains(a) && m.dom().contains(b) && m[a] == m[b] ==> a == b
}

/// The invariant that carries one clone operation.  `pending` holds the
/// source identities whose destination identity has been reserved but
/// whose destination object has not been written yet.  Every other
/// mapped source identity is fully cloned: its destination object is the
/// source object with references rewritten through the map.
pub open spec fn clone_state_ok(
    srcv: Map<ObjectId, ObjectV>,
    dstv: Map<ObjectId, ObjectV>,
    dst_max: int,
    m: Map<ObjectId, ObjectId>,
    pending: Set<ObjectId>,
) -> bool {
    &&& pending.subset_of(m.dom())
    &&& m.dom().subset_of(srcv.dom())
    &&& forall|s: ObjectId| #[trigger] m.dom().contains(s) ==> m[s].num <= dst_max
    &&& map_injective(m)
    &&& forall|s: ObjectId|
        m.dom().contains(s) && !pending.contains(s) ==> dstv.dom().contains(#[trigger] m[s])
            && obj_refs(srcv[s]).subset_of(m.dom()) && dstv[m[s]] == rename(m, srcv[s])
    &&& forall|s: ObjectId| #[trigger] pending.contains(s) ==> !dstv.dom().contains(m[s])
}

/// A set of identities closed under reference following: each member is
/// present in the source table and refers only to members.
pub open spec fn closed_set(srcv: Map<ObjectId, ObjectV>, s: Set<ObjectId>) -> bool {
    forall|id: ObjectId|
        #[trigger] s.contains(id) ==> srcv.dom().contains(id) && obj_refs(srcv[id]).subset_of(s)
}

/// An identity is resolvable when some closed set contains it: cloning
/// from it can succeed exactly in this case.
pub open spec fn resolvable(srcv: Map<ObjectId, ObjectV>, id: ObjectId) -> bool {
    exists|s: Set<ObjectId>| #[trigger] closed_set(srcv, s) && s.contains(id)
}

/// How one clone step may change the destination document and the
/// identity map: both only grow, pages and version stay, identities are
/// spent no faster than source identities are mapped, and every newly
/// written destination object is the image of some completed source
/// identity.
pub open spec fn clone_evolution(
    src: Document,
    dst0: Document,
    dst1: Document,
    map0: IdentityMap,
    map1: IdentityMap,
    pending: Set<ObjectId>,
) -> bool {
    &&& dst1.wf()
    &&& map1.wf()
    &&& map0@.submap_of(map1@)
    &&& dst0.table().submap_of(dst1.table())
    &&& dst1.pages == dst0.pages
    &&& dst1.version == dst0.version
    &&& dst0.max_id <= dst1.max_id
    &&& dst1.max_id + unmapped(src.table(), map1@) <= dst0.max_id + unmapped(src.table(), map0@)
    &&& forall|k: ObjectId|
        #[trigger] dst1.table().dom().contains(k) && !dst0.table().dom().contains(k)
            ==> exists|s: ObjectId|
            #[trigger] map1@.dom().contains(s) && !pending.contains(s) && map1@[s] == k
}

pub proof fn lemma_evolution_trans(
    src: Document,
    d0: Document,
    d1: Document,
    d2: Document,
    m0: IdentityMap,
    m1: IdentityMap,
    m2: IdentityMap,
    pending: Set<ObjectId>,
)
    requires
        clone_evolution(src, d0, d1, m0, m1, pending),
        clone_evolution(src, d1, d2, m1, m2, pending),
    ensures
        clone_evolution(src, d0, d2, m0, m2, pending),
{
    vstd::map_lib::lemma_submap_of_trans(m0@, m1@, m2@);
    vstd::map_lib::lemma_submap_of_trans(d0.table(), d1.table(), d2.table());
    assert forall|k: ObjectId|
        #[trigger] d2.table().dom().contains(k) && !d0.table().dom().contains(k) implies exists|
        s: ObjectId,
    |
        #[trigger] m2@.dom().contains(s) && !pending.contains(s) && m2@[s] == k by {
        if d1.table().dom().contains(k) {
            let s = choose|s: ObjectId|
                #[trigger] m1@.dom().contains(s) && !pending.contains(s) && m1@[s] == k;
            assert(m1@.dom().contains(s));
            assert(m2@.dom().contains(s));
            assert(m2@[s] == k);
        }
    }
}

proof fn lemma_unmapped_monotone(
    srcv: Map<ObjectId, ObjectV>,
    m1: Map<ObjectId, ObjectId>,
    m2: Map<ObjectId, ObjectId>,
)
    requires
        srcv.dom().finite(),
        m1.submap_of(m2),
    ensures
        unmapped(srcv, m2) <= unmapped(srcv, m1),
{
    assert(srcv.dom().difference(m2.dom()).subset_of(srcv.dom().difference(m1.dom())));
    vstd::set_lib::lemma_len_subset(
        srcv.dom().difference(m2.dom()),
        srcv.dom().difference(m1.dom()),
    );
}

proof fn lemma_unmapped_insert(
    srcv: Map<ObjectId, ObjectV>,
    m: Map<ObjectId, ObjectId>,
    id: ObjectId,
    did: ObjectId,
)
    requires
        srcv.dom().finite(),
        srcv.dom().contains(id),
        !m.dom().contains(id),
    ensures
        unmapped(srcv, m.insert(id, did)) == unmapped(srcv, m) - 1,
{
    let diff0 = srcv.dom().difference(m.dom());
    let diff1 = srcv.dom().difference(m.insert(id, did).dom());
    assert(diff1 =~= diff0.remove(id));
    assert(diff0.contains(id));
}

/// Reserving a fresh destination identity for an unmapped source
/// identity preserves the clone invariant, with the source identity now
/// pending.
proof fn lemma_state_reserve(
    srcv: Map<ObjectId, ObjectV>,
    dstv: Map<ObjectId, ObjectV>,
    dst_max: int,
    m: Map<ObjectId, ObjectId>,
    pending: Set<ObjectId>,
    id: ObjectId,
    did: ObjectId,
)
    requires
        clone_state_ok(srcv, dstv, dst_max, m, pending),
        srcv.dom().contains(id),
        !m.dom().contains(id),
        did.num == dst_max + 1,
        !dstv.dom().contains(did),
    ensures
        clone_state_ok(srcv, dstv, dst_max + 1, m.insert(id, did), pending.insert(id)),
{
    let m2 = m.insert(id, did);
    let pending2 = pending.insert(id);
    assert forall|s: ObjectId|
        m2.dom().contains(s) && !pending2.contains(s) implies dstv.dom().contains(
        #[trigger] m2[s],
    ) && obj_refs(srcv[s]).subset_of(m2.dom()) && dstv[m2[s]] == rename(m2, srcv[s]) by {
        assert(s != id);
        assert(m.dom().contains(s) && !pending.contains(s));
        assert(m2[s] == m[s]);
        lemma_rename_stable(m, m2, srcv[s]);
    }
    assert forall|s: ObjectId| #[trigger] pending2.contains(s) implies !dstv.dom().contains(
        m2[s],
    ) by {
        if s != id {
            assert(m2[s] == m[s]);
        }
    }
}

/// Writing the cloned object under its reserved identity completes that
/// identity: it leaves the pending set and the invariant holds again.
proof fn lemma_state_complete(
    srcv: Map<ObjectId, ObjectV>,
    dstv: Map<ObjectId, ObjectV>,
    dst_max: int,
    m: Map<ObjectId, ObjectId>,
    pending: Set<ObjectId>,
    id: ObjectId,
    did: ObjectId,
    newobj: ObjectV,
)
    requires
        clone_state_ok(srcv, dstv, dst_max, m, pending.insert(id)),
        m.dom().contains(id),
        m[id] == did,
        !pending.contains(id),
        obj_refs(srcv[id]).subset_of(m.dom()),
        newobj == rename(m, srcv[id]),
    ensures
        clone_state_ok(srcv, dstv.insert(did, newobj), dst_max, m, pending),
{
    let dstv2 = dstv.insert(did, newobj);
    assert forall|s: ObjectId|
        m.dom().contains(s) && !pending.contains(s) implies dstv2.dom().contains(#[trigger] m[s])
        && obj_refs(srcv[s]).subset_of(m.dom()) && dstv2[m[s]] == rename(m, srcv[s]) by {
        if s == id {
        } else {
            assert(!pending.insert(id).contains(s));
            assert(dstv.dom().contains(m[s]));
            assert(m[s] != did);
        }
    }
    assert forall|s: ObjectId| #[trigger] pending.contains(s) implies !dstv2.dom().contains(
        m[s],
    ) by {
        assert(pending.insert(id).contains(s));
        assert(!dstv.dom().contains(m[s]));
        assert(s != id);
        assert(m[s] != did);
    }
}

/// With nothing pending, the mapped source identities form a closed set:
/// each is present in the source and refers only to mapped identities.
pub proof fn lemma_completed_map_closed(
    srcv: Map<ObjectId, ObjectV>,
    dstv: Map<ObjectId, ObjectV>,
    dst_max: int,
    m: Map<ObjectId, ObjectId>,
)
    requires
        clone_state_ok(srcv, dstv, dst_max, m, Set::empty()),
    ensures
        closed_set(srcv, m.dom()),
{
    assert forall|id: ObjectId| #[trigger] m.dom().contains(id) implies srcv.dom().contains(id)
        && obj_refs(srcv[id]).subset_of(m.dom()) by {
        assert(!Set::<ObjectId>::empty().contains(id));
        assert(dstv.dom().contains(m[id]));
    }
}

/// An empty identity map satisfies the clone invariant against any pair
/// of documents.
pub proof fn lemma_state_empty(srcv: Map<ObjectId, ObjectV>, dstv: Map<ObjectId, ObjectV>, dst_max: int)
    ensures
        clone_state_ok(srcv, dstv, dst_max, Map::empty(), Set::empty()),
{
    assert(Map::<ObjectId, ObjectId>::empty().dom() =~= Set::<ObjectId>::empty());
}

/// A value can be resolved when some closed set covers its references.
pub open spec fn refs_resolvable(srcv: Map<ObjectId, ObjectV>, o: ObjectV) -> bool {
    exists|s: Set<ObjectId>| #[trigger] closed_set(srcv, s) && obj_refs(o).subset_of(s)
}

/// Clones the object registered under `id` in the source document into
/// the destination document's identity space, deduplicating through the
/// identity map.
///
/// Succeeds exactly when `id` is resolvable: every identity transitively
/// reachable from it is present in the source table.  A source identity
/// that the map already covers is handed back unchanged, with nothing
/// re-copied: lookups are idempotent and the destination keeps exactly
/// one copy of each cloned object.
pub fn clone_object(src: &Document, dst: &mut Document, id: ObjectId, map: &mut IdentityMap) -> (r:
    Result<ObjectId, ImportError>)
    requires
        src.wf(),
        old(dst).wf(),
        old(map).wf(),
        clone_state_ok(
            src.table(),
            old(dst).table(),
            old(dst).max_id as int,
            old(map)@,
            Set::empty(),
        ),
        old(dst).max_id + unmapped(src.table(), old(map)@) <= u32::MAX,
    ensures
        clone_evolution(*src, *old(dst), *final(dst), *old(map), *final(map), Set::empty()),
        match r {
            Ok(did) => {
                &&& clone_state_ok(
                    src.table(),
                    final(dst).table(),
                    final(dst).max_id as int,
                    final(map)@,
                    Set::empty(),
                )
                &&& final(map)@.dom().contains(id)
                &&& final(map)@[id] == did
                &&& resolvable(src.table(), id)
                &&& (old(map)@.dom().contains(id) ==> *final(map) == *old(map) && *final(dst)
                    == *old(dst) && did == old(map)@[id])
            },
            Err(e) => {
                &&& e == ImportError::DanglingReference
                &&& !resolvable(src.table(), id)
            },
        },
{
    let r = clone_object_rec(src, dst, id, map, Ghost(Set::empty()));
    proof {
        match r {
            Ok(_) => {
                lemma_completed_map_closed(src.table(), dst.table(), dst.max_id as int, map@);
            },
            Err(_) => {
                if resolvable(src.table(), id) {
                    let sset = choose|s: Set<ObjectId>|
                        #[trigger] closed_set(src.table(), s) && s.contains(id);
                    assert(!sset.contains(id));
                }
            },
        }
    }
    r
}

/// Clones a bare object value into the destination identity space.
/// Succeeds exactly when the value's references are resolvable; the
/// result is the value with every reference rewritten to its image.
pub fn clone_value(src: &Document, dst: &mut Document, obj: &Object, map: &mut IdentityMap) -> (r:
    Result<Object, ImportError>)
    requires
        src.wf(),
        old(dst).wf(),
        old(map).wf(),
        clone_state_ok(
            src.table(),
            old(dst).table(),
            old(dst).max_id as int,
            old(map)@,
            Set::empty(),
        ),
        old(dst).max_id + unmapped(src.table(), old(map)@) <= u32::MAX,
    ensures
        clone_evolution(*src, *old(dst), *final(dst), *old(map), *final(map), Set::empty()),
        match r {
            Ok(o2) => {
                &&& clone_state_ok(
                    src.table(),
                    final(dst).table(),
                    final(dst).max_id as int,
                    final(map)@,
                    Set::empty(),
                )
                &&& obj_refs(obj@).subset_of(final(map)@.dom())
                &&& o2@ == rename(final(map)@, obj@)
                &&& refs_resolvable(src.table(), obj@)
            },
            Err(e) => {
                &&& e == ImportError::DanglingReference
                &&& !refs_resolvable(src.table(), obj@)
            },
        },
{
    let r = clone_value_rec(src, dst, obj, map, Ghost(Set::empty()));
    proof {
        match r {
            Ok(_) => {
                lemma_completed_map_closed(src.table(), dst.table(), dst.max_id as int, map@);
                assert(closed_set(src.table(), map@.dom()) && obj_refs(obj@).subset_of(
                    map@.dom(),
                ));
            },
            Err(_) => {
                if refs_resolvable(src.table(), obj@) {
                    let sset = choose|s: Set<ObjectId>|
                        #[trigger] closed_set(src.table(), s) && obj_refs(obj@).subset_of(s);
                    assert(!obj_refs(obj@).subset_of(sset));
                }
            },
        }
    }
    r
}

/// Cloning a two-object reference cycle reproduces the cycle's shape in
/// the destination: once the clone completes, the two images reference
/// each other, through two distinct destination identities.
pub proof fn lemma_cycle_shape(
    srcv: Map<ObjectId, ObjectV>,
    dstv: Map<ObjectId, ObjectV>,
    dst_max: int,
    m: Map<ObjectId, ObjectId>,
    a: ObjectId,
    b: ObjectId,
)
    requires
        clone_state_ok(srcv, dstv, dst_max, m, Set::empty()),
        m.dom().contains(a),
        srcv.dom().contains(a),
        srcv[a] == ObjectV::Reference(b),
        srcv.dom().contains(b),
        srcv[b] == ObjectV::Reference(a),
        a != b,
    ensures
        m.dom().contains(b),
        dstv.dom().contains(m[a]),
        dstv.dom().contains(m[b]),
        dstv[m[a]] == ObjectV::Reference(m[b]),
        dstv[m[b]] == ObjectV::Reference(m[a]),
        m[a] != m[b],
{
    assert(!Set::<ObjectId>::empty().contains(a));
    assert(obj_refs(srcv[a]).contains(b));
    assert(m.dom().contains(b));
    assert(!Set::<ObjectId>::empty().contains(b));
    assert(dstv[m[a]] == rename(m, srcv[a]));
    assert(dstv[m[b]] == rename(m, srcv[b]));
}

/// Clones the object registered under `id` in the source document into
/// the destination document, reusing the registered destination identity
/// when `id` was cloned before.
#[verifier::loop_isolation(false)]
#[verifier::rlimit(60)]
pub(crate) fn clone_object_rec(
    src: &Document,
    dst: &mut Document,
    id: ObjectId,
    map: &mut IdentityMap,
    Ghost(pending): Ghost<Set<ObjectId>>,
) -> (r: Result<ObjectId, ImportError>)
    requires
        src.wf(),
        old(dst).wf(),
        old(map).wf(),
        clone_state_ok(
            src.table(),
            old(dst).table(),
            old(dst).max_id as int,
            old(map)@,
            pending,
        ),
        old(dst).max_id + unmapped(src.table(), old(map)@) <= u32::MAX,
    ensures
        clone_evolution(*src, *old(dst), *final(dst), *old(map), *final(map), pending),
        match r {
            Ok(did) => {
                &&& clone_state_ok(
                    src.table(),
                    final(dst).table(),
                    final(dst).max_id as int,
                    final(map)@,
                    pending,
                )
                &&& final(map)@.dom().contains(id)
                &&& final(map)@[id] == did
                &&& old(map)@.dom().contains(id) ==> *final(map) == *old(map) && *final(dst)
                    == *old(dst)
            },
            Err(e) => {
                &&& e == ImportError::DanglingReference
                &&& forall|sset: Set<ObjectId>|
                    #[trigger] closed_set(src.table(), sset) ==> !sset.contains(id)
            },
        },
    decreases unmapped(src.table(), map@), 0int, id,
{
    proof {
        crate::document::lemma_assoc_map_dom(crate::document::table_entries(src.objects@));
    }
    match map.get(id) {
        Some(did) => {
            return Ok(did);
        },
        None => {},
    }
    let obj = match src.get(id) {
        Some(o) => o,
        None => {
            proof {
                assert forall|sset: Set<ObjectId>|
                    #[trigger] closed_set(src.table(), sset) implies !sset.contains(id) by {
                    if sset.contains(id) {
                        assert(src.table().dom().contains(id));
                    }
                }
            }
            return Err(ImportError::DanglingReference);
        },
    };
    proof {
        assert(src.table().dom().difference(map@.dom()).contains(id));
        vstd::set::axiom_set_remove_len(src.table().dom().difference(map@.dom()), id);
    }
    let did = dst.allocate_id();
    map.insert(id, did);
    let ghost map1 = *map;
    let ghost dst1 = *dst;
    proof {
        lemma_unmapped_insert(src.table(), old(map)@, id, did);
        lemma_state_reserve(
            src.table(),
            old(dst).table(),
            old(dst).max_id as int,
            old(map)@,
            pending,
            id,
            did,
        );
    }
    proof {
        assert(clone_evolution(*src, *old(dst), dst1, *old(map), map1, pending));
    }
    let cloned = match clone_value_rec(src, dst, obj, map, Ghost(pending.insert(id))) {
        Ok(c) => c,
        Err(e) => {
            proof {
                lemma_evolution_trans(
                    *src,
                    *old(dst),
                    dst1,
                    *dst,
                    *old(map),
                    map1,
                    *map,
                    pending.insert(id),
                );
                assert forall|sset: Set<ObjectId>|
                    #[trigger] closed_set(src.table(), sset) implies !sset.contains(id) by {
                    if sset.contains(id) {
                        assert(obj_refs(src.table()[id]).subset_of(sset));
                        assert(obj@ == src.table()[id]);
                        assert(!obj_refs(obj@).subset_of(sset));
                    }
                }
                assert forall|k: ObjectId|
                    #[trigger] dst.table().dom().contains(k) && !old(dst).table().dom().contains(
                        k,
                    ) implies exists|s: ObjectId|
                    #[trigger] map@.dom().contains(s) && !pending.contains(s) && map@[s] == k by {
                    let s = choose|s: ObjectId|
                        #[trigger] map@.dom().contains(s) && !pending.insert(id).contains(s)
                            && map@[s] == k;
                    assert(!pending.contains(s));
                }
            }
            return Err(e);
        },
    };
    let ghost dst2 = *dst;
    let ghost map2 = *map;
    proof {
        assert(!pending.contains(id));
        assert(pending.insert(id).contains(id));
        assert(!dst.table().dom().contains(map@[id]));
        assert(did.num <= dst.max_id);
        assert(clone_evolution(*src, dst1, dst2, map1, map2, pending)) by {
            assert forall|k: ObjectId|
                #[trigger] dst2.table().dom().contains(k) && !dst1.table().dom().contains(
                    k,
                ) implies exists|s: ObjectId|
                #[trigger] map2@.dom().contains(s) && !pending.contains(s) && map2@[s] == k by {
                let s = choose|s: ObjectId|
                    #[trigger] map2@.dom().contains(s) && !pending.insert(id).contains(s)
                        && map2@[s] == k;
                assert(!pending.contains(s));
            }
        }
    }
    dst.insert(did, cloned);
    proof {
        lemma_state_complete(
            src.table(),
            dst2.table(),
            dst.max_id as int,
            map@,
            pending,
            id,
            did,
            cloned@,
        );
        assert(dst.table() == dst2.table().insert(did, cloned@));
        assert(clone_evolution(*src, dst2, *dst, map2, *map, pending)) by {
            assert(dst2.table().submap_of(dst.table())) by {
                assert forall|k: ObjectId| #[trigger] dst2.table().dom().contains(k) implies
                    dst.table().dom().contains(k) && dst.table()[k] == dst2.table()[k] by {
                    assert(k != did);
                }
            }
            assert forall|k: ObjectId|
                #[trigger] dst.table().dom().contains(k) && !dst2.table().dom().contains(
                    k,
                ) implies exists|s: ObjectId|
                #[trigger] map@.dom().contains(s) && !pending.contains(s) && map@[s] == k by {
                assert(k == did);
                assert(map@.dom().contains(id) && !pending.contains(id) && map@[id] == did);
            }
        }
        lemma_evolution_trans(*src, *old(dst), dst1, dst2, *old(map), map1, map2, pending);
        lemma_evolution_trans(*src, *old(dst), dst2, *dst, *old(map), map2, *map, pending);
    }
    Ok(did)
}

/// Clones a bare object value: scalars and payloads copy, arrays and
/// dictionaries clone element-wise, and references resolve through the
/// cloner so that the result lives entirely in the destination identity
/// space.
#[verifier::loop_isolation(false)]
#[verifier::rlimit(100)]
pub(crate) fn clone_value_rec(
    src: &Document,
    dst: &mut Document,
    obj: &Object,
    map: &mut IdentityMap,
    Ghost(pending): Ghost<Set<ObjectId>>,
) -> (r: Result<Object, ImportError>)
    requires
        src.wf(),
        old(dst).wf(),
        old(map).wf(),
        clone_state_ok(
            src.table(),
            old(dst).table(),
            old(dst).max_id as int,
            old(map)@,
            pending,
        ),
        old(dst).max_id + unmapped(src.table(), old(map)@) <= u32::MAX,
    ensures
        clone_evolution(*src, *old(dst), *final(dst), *old(map), *final(map), pending),
        match r {
            Ok(o2) => {
                &&& clone_state_ok(
                    src.table(),
                    final(dst).table(),
                    final(dst).max_id as int,
                    final(map)@,
                    pending,
                )
                &&& obj_refs(obj@).subset_of(final(map)@.dom())
                &&& o2@ == rename(final(map)@, obj@)
            },
            Err(e) => {
                &&& e == ImportError::DanglingReference
                &&& forall|sset: Set<ObjectId>|
                    #[trigger] closed_set(src.table(), sset) ==> !obj_refs(obj@).subset_of(sset)
            },
        },
    decreases unmapped(src.table(), map@), 1int, *obj,
{
    proof {
        crate::document::lemma_assoc_map_dom(crate::document::table_entries(src.objects@));
    }
    match obj {
        Object::Null => Ok(Object::Null),
        Object::Boolean(b) => Ok(Object::Boolean(*b)),
        Object::Integer(n) => Ok(Object::Integer(*n)),
        Object::Real(bits) => Ok(Object::Real(*bits)),
        Object::Text(v) => Ok(Object::Text(copy_bytes(v))),
        Object::Name(v) => Ok(Object::Name(copy_bytes(v))),
        Object::Reference(rid) => {
            let rid2 = match clone_object_rec(src, dst, *rid, map, Ghost(pending)) {
                Ok(d) => d,
                Err(e) => {
                    proof {
                        assert forall|sset: Set<ObjectId>|
                            #[trigger] closed_set(src.table(), sset) implies !obj_refs(
                            obj@,
                        ).subset_of(sset) by {
                            assert(obj_refs(obj@).contains(*rid));
                            assert(!sset.contains(*rid));
                        }
                    }
                    return Err(e);
                },
            };
            proof {
                assert forall|x: ObjectId| obj_refs(obj@).contains(x) implies map@.dom().contains(
                    x,
                ) by {
                    assert(x == *rid);
                }
            }
            Ok(Object::Reference(rid2))
        },
        Object::Array(els) => {
            proof {
                assert(decreases_to!(*obj => *els));
                assert(decreases_to!(*els => els@));
            }
            let ghost dst_entry = *dst;
            let ghost map_entry = *map;
            let mut out: Vec<Object> = Vec::new();
            let mut i: usize = 0;
            while i < els.len()
                invariant
                    dst.wf(),
                    map.wf(),
                    0 <= i <= els@.len(),
                    clone_state_ok(
                        src.table(),
                        dst.table(),
                        dst.max_id as int,
                        map@,
                        pending,
                    ),
                    clone_evolution(*src, dst_entry, *dst, map_entry, *map, pending),
                    out@.len() == i,
                    forall|j: int|
                        0 <= j < i ==> obj_refs(#[trigger] els@[j]@).subset_of(map@.dom()),
                    forall|j: int| 0 <= j < i ==> (#[trigger] out@[j])@ == rename(map@, els@[j]@),
                decreases els@.len() - i,
            {
                proof {
                    lemma_unmapped_monotone(src.table(), map_entry@, map@);
                    assert(decreases_to!(els@ => els@[i as int]));
                }
                let ghost dst_before = *dst;
                let ghost map_before = *map;
                let child = match clone_value_rec(src, dst, &els[i], map, Ghost(pending)) {
                    Ok(c) => c,
                    Err(e) => {
                        proof {
                            lemma_evolution_trans(
                                *src,
                                *old(dst),
                                dst_before,
                                *dst,
                                *old(map),
                                map_before,
                                *map,
                                pending,
                            );
                            lemma_view_els(els@);
                            assert forall|sset: Set<ObjectId>|
                                #[trigger] closed_set(src.table(), sset) implies !obj_refs(
                                obj@,
                            ).subset_of(sset) by {
                                assert(!obj_refs(els@[i as int]@).subset_of(sset));
                                let rid = choose|rid: ObjectId|
                                    obj_refs(els@[i as int]@).contains(rid) && !sset.contains(rid);
                                lemma_refs_seq(view_els(els@));
                                assert(view_els(els@)[i as int] == els@[i as int]@);
                                assert(obj_refs(view_els(els@)[i as int]).contains(rid));
                                assert(refs_seq(view_els(els@)).contains(rid));
                                assert(obj_refs(obj@).contains(rid));
                            }
                        }
                        return Err(e);
                    },
                };
                proof {
                    assert forall|j: int|
                        0 <= j < i + 1 implies obj_refs(#[trigger] els@[j]@).subset_of(
                        map@.dom(),
                    ) by {
                        if j < i {
                            assert(obj_refs(els@[j]@).subset_of(map_before@.dom()));
                        }
                    }
                    assert forall|j: int|
                        0 <= j < i implies (#[trigger] out@[j])@ == rename(map@, els@[j]@) by {
                        lemma_rename_stable(map_before@, map@, els@[j]@);
                    }
                    lemma_evolution_trans(
                        *src,
                        dst_entry,
                        dst_before,
                        *dst,
                        map_entry,
                        map_before,
                        *map,
                        pending,
                    );
                }
                out.push(child);
                i = i + 1;
            }
            let ghost outv = out@;
            proof {
                lemma_view_els(els@);
                lemma_view_els(outv);
                lemma_rename_seq(map@, view_els(els@));
                lemma_refs_seq(view_els(els@));
                assert forall|x: ObjectId| obj_refs(obj@).contains(x) implies map@.dom().contains(
                    x,
                ) by {
                    assert(refs_seq(view_els(els@)).contains(x));
                    let j = choose|j: int|
                        0 <= j < view_els(els@).len() && #[trigger] obj_refs(
                            view_els(els@)[j],
                        ).contains(x);
                    assert(view_els(els@)[j] == els@[j]@);
                    assert(obj_refs(els@[j]@).subset_of(map@.dom()));
                }
                assert forall|j: int| 0 <= j < outv.len() implies view_els(outv)[j] == rename_seq(
                    map@,
                    view_els(els@),
                )[j] by {
                    assert(view_els(outv)[j] == outv[j]@);
                    assert(outv[j]@ == rename(map@, els@[j]@));
                    assert(view_els(els@)[j] == els@[j]@);
                }
                assert(view_els(outv) =~= rename_seq(map@, view_els(els@)));
            }
            Ok(Object::Array(out))
        },
        Object::Dictionary(es) => {
            proof {
                assert(decreases_to!(*obj => *es));
            }
            let out = match clone_entries_rec(src, dst, es, map, Ghost(pending)) {
                Ok(o) => o,
                Err(e) => {
                    return Err(e);
                },
            };
            proof {
                lemma_entries_view(out@);
            }
            Ok(Object::Dictionary(out))
        },
        Object::Stream(es, payload) => {
            proof {
                assert(decreases_to!(*obj => *es));
            }
            let out = match clone_entries_rec(src, dst, es, map, Ghost(pending)) {
                Ok(o) => o,
                Err(e) => {
                    return Err(e);
                },
            };
            let bytes = copy_bytes(payload);
            Ok(Object::Stream(out, bytes))
        },
    }
}

/// Clones a run of dictionary entries, preserving keys and their order.
#[verifier::loop_isolation(false)]
#[verifier::rlimit(100)]
pub(crate) fn clone_entries_rec(
    src: &Document,
    dst: &mut Document,
    es: &Vec<DictEntry>,
    map: &mut IdentityMap,
    Ghost(pending): Ghost<Set<ObjectId>>,
) -> (r: Result<Vec<DictEntry>, ImportError>)
    requires
        src.wf(),
        old(dst).wf(),
        old(map).wf(),
        clone_state_ok(
            src.table(),
            old(dst).table(),
            old(dst).max_id as int,
            old(map)@,
            pending,
        ),
        old(dst).max_id + unmapped(src.table(), old(map)@) <= u32::MAX,
    ensures
        clone_evolution(*src, *old(dst), *final(dst), *old(map), *final(map), pending),
        match r {
            Ok(out) => {
                &&& clone_state_ok(
                    src.table(),
                    final(dst).table(),
                    final(dst).max_id as int,
                    final(map)@,
                    pending,
                )
                &&& refs_entries(entries_view(es@)).subset_of(final(map)@.dom())
                &&& entries_view(out@) == rename_entries(final(map)@, entries_view(es@))
            },
            Err(e) => {
                &&& e == ImportError::DanglingReference
                &&& forall|sset: Set<ObjectId>|
                    #[trigger] closed_set(src.table(), sset) ==> !refs_entries(
                        entries_view(es@),
                    ).subset_of(sset)
            },
        },
    decreases unmapped(src.table(), map@), 1int, *es,
{
    proof {
        crate::document::lemma_assoc_map_dom(crate::document::table_entries(src.objects@));
    }
    let ghost dst_entry = *dst;
    let ghost map_entry = *map;
    let mut out: Vec<DictEntry> = Vec::new();
    let mut i: usize = 0;
    while i < es.len()
        invariant
            dst.wf(),
            map.wf(),
            0 <= i <= es@.len(),
            clone_state_ok(src.table(), dst.table(), dst.max_id as int, map@, pending),
            clone_evolution(*src, dst_entry, *dst, map_entry, *map, pending),
            out@.len() == i,
            forall|j: int|
                0 <= j < i ==> obj_refs((#[trigger] es@[j])@.val).subset_of(map@.dom()),
            forall|j: int|
                0 <= j < i ==> (#[trigger] out@[j])@.key == es@[j]@.key && out@[j]@.val == rename(
                    map@,
                    es@[j]@.val,
                ),
        decreases es@.len() - i,
    {
        proof {
            lemma_unmapped_monotone(src.table(), map_entry@, map@);
            assert(decreases_to!(*es => es@));
            assert(decreases_to!(es@ => es@[i as int]));
            assert(decreases_to!(es@[i as int] => es@[i as int].value));
        }
        let ghost dst_before = *dst;
        let ghost map_before = *map;
        let child = match clone_value_rec(src, dst, &es[i].value, map, Ghost(pending)) {
            Ok(c) => c,
            Err(e) => {
                proof {
                    lemma_evolution_trans(
                        *src,
                        *old(dst),
                        dst_before,
                        *dst,
                        *old(map),
                        map_before,
                        *map,
                        pending,
                    );
                    lemma_entries_view(es@);
                    assert forall|sset: Set<ObjectId>|
                        #[trigger] closed_set(src.table(), sset) implies !refs_entries(
                        entries_view(es@),
                    ).subset_of(sset) by {
                        assert(!obj_refs(es@[i as int]@.val).subset_of(sset));
                        let rid = choose|rid: ObjectId|
                            obj_refs(es@[i as int]@.val).contains(rid) && !sset.contains(rid);
                        lemma_refs_entries(entries_view(es@));
                        assert(entries_view(es@)[i as int] == es@[i as int]@);
                        assert(obj_refs(entries_view(es@)[i as int].val).contains(rid));
                        assert(refs_entries(entries_view(es@)).contains(rid));
                    }
                }
                return Err(e);
            },
        };
        let key = copy_bytes(&es[i].key);
        proof {
            assert forall|j: int|
                0 <= j < i + 1 implies obj_refs((#[trigger] es@[j])@.val).subset_of(
                map@.dom(),
            ) by {
                if j < i {
                    assert(obj_refs(es@[j]@.val).subset_of(map_before@.dom()));
                }
            }
            assert forall|j: int|
                0 <= j < i implies (#[trigger] out@[j])@.key == es@[j]@.key && out@[j]@.val
                == rename(map@, es@[j]@.val) by {
                lemma_rename_stable(map_before@, map@, es@[j]@.val);
            }
            lemma_evolution_trans(
                *src,
                dst_entry,
                dst_before,
                *dst,
                map_entry,
                map_before,
                *map,
                pending,
            );
        }
        out.push(DictEntry { key, value: child });
        i = i + 1;
    }
    proof {
        lemma_entries_view(es@);
        lemma_entries_view(out@);
        lemma_rename_entries(map@, entries_view(es@));
        lemma_refs_entries(entries_view(es@));
        assert forall|x: ObjectId| refs_entries(entries_view(es@)).contains(x) implies
            map@.dom().contains(x) by {
            let j = choose|j: int|
                0 <= j < entries_view(es@).len() && #[trigger] obj_refs(
                    entries_view(es@)[j].val,
                ).contains(x);
            assert(entries_view(es@)[j] == es@[j]@);
            assert(obj_refs(es@[j]@.val).subset_of(map@.dom()));
        }
        assert forall|j: int| 0 <= j < out@.len() implies entries_view(out@)[j] == rename_entries(
            map@,
            entries_view(es@),
        )[j] by {
            assert(entries_view(out@)[j] == out@[j]@);
            assert(entries_view(es@)[j] == es@[j]@);
            assert(out@[j]@.key == es@[j]@.key && out@[j]@.val == rename(map@, es@[j]@.val));
        }
        assert(entries_view(out@) =~= rename_entries(map@, entries_view(es@)));
    }
    Ok(out)
}

} // verus!
