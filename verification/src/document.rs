//! Documents and identity maps.
//!
//! A document owns a table from object identities to objects, a page
//! index from page numbers to root page identities, and a declared
//! version string.  An identity map records, during one clone operation,
//! which destination identity each source identity was given.

use vstd::prelude::*;
use crate::object::{Object, ObjectId, ObjectV};

verus! {

broadcast use vstd::seq::group_seq_axioms, vstd::std_specs::vec::group_vec_axioms, vstd::set::group_set_axioms, vstd::map::group_map_axioms;

/// The map described by an association list, later entries winning.
/// With distinct keys the order cannot matter.
pub open spec fn assoc_map<K, V>(entries: Seq<(K, V)>) -> Map<K, V>
    decreases entries.len(),
{
    if entries.len() == 0 {
        Map::empty()
    } else {
        assoc_map(entries.drop_last()).insert(entries.last().0, entries.last().1)
    }
}

/// No key occurs twice.
pub open spec fn distinct_keys<K, V>(entries: Seq<(K, V)>) -> bool {
    forall|i: int, j: int|
        0 <= i < j < entries.len() ==> (#[trigger] entries[i]).0 != (#[trigger] entries[j]).0
}

pub proof fn lemma_assoc_map_dom<K, V>(entries: Seq<(K, V)>)
    ensures
        forall|k: K|
            #[trigger] assoc_map(entries).dom().contains(k) <==> exists|i: int|
                0 <= i < entries.len() && (#[trigger] entries[i]).0 == k,
        assoc_map(entries).dom().finite(),
        assoc_map(entries).dom().len() <= entries.len(),
    decreases entries.len(),
{
    if entries.len() > 0 {
        lemma_assoc_map_dom(entries.drop_last());
        assert(assoc_map(entries) == assoc_map(entries.drop_last()).insert(
            entries.last().0,
            entries.last().1,
        ));
        assert forall|k: K| #[trigger] assoc_map(entries).dom().contains(k) implies exists|i: int|
            0 <= i < entries.len() && (#[trigger] entries[i]).0 == k by {
            if k == entries.last().0 {
                assert(entries[entries.len() - 1].0 == k);
            } else {
                let i = choose|i: int|
                    0 <= i < entries.drop_last().len() && (#[trigger] entries.drop_last()[i]).0
                        == k;
                assert(entries[i].0 == k);
            }
        }
        assert forall|k: K|
            (exists|i: int| 0 <= i < entries.len() && (#[trigger] entries[i]).0 == k) implies
            assoc_map(entries).dom().contains(k) by {
            let i = choose|i: int| 0 <= i < entries.len() && (#[trigger] entries[i]).0 == k;
            if i < entries.len() - 1 {
                assert(entries.drop_last()[i] == entries[i]);
                assert(assoc_map(entries.drop_last()).dom().contains(k));
            }
        }
    }
}

pub proof fn lemma_assoc_map_index<K, V>(entries: Seq<(K, V)>, i: int)
    requires
        distinct_keys(entries),
        0 <= i < entries.len(),
    ensures
        assoc_map(entries).dom().contains(entries[i].0),
        assoc_map(entries)[entries[i].0] == entries[i].1,
    decreases entries.len(),
{
    assert(assoc_map(entries) == assoc_map(entries.drop_last()).insert(
        entries.last().0,
        entries.last().1,
    ));
    if i < entries.len() - 1 {
        assert(distinct_keys(entries.drop_last())) by {
            assert(forall|a: int, b: int|
                0 <= a < b < entries.len() - 1 ==> entries.drop_last()[a] == entries[a]
                    && entries.drop_last()[b] == entries[b]);
        }
        assert(entries.drop_last()[i] == entries[i]);
        lemma_assoc_map_index(entries.drop_last(), i);
        assert(entries[i].0 != entries.last().0) by {
            assert(entries[entries.len() - 1].0 == entries.last().0);
        }
    }
}

pub proof fn lemma_assoc_map_push<K, V>(entries: Seq<(K, V)>, k: K, v: V)
    ensures
        assoc_map(entries.push((k, v))) == assoc_map(entries).insert(k, v),
{
    assert(entries.push((k, v)).drop_last() =~= entries);
    assert(entries.push((k, v)).last() == (k, v));
}

/// An identity map: which destination identity each already-cloned
/// source identity was given.  Lookups are idempotent; a source identity
/// is registered at most once.
#[derive(Debug)]
pub struct IdentityMap {
    pub entries: Vec<(ObjectId, ObjectId)>,
}

impl View for IdentityMap {
    type V = Map<ObjectId, ObjectId>;

    open spec fn view(&self) -> Map<ObjectId, ObjectId> {
        assoc_map(self.entries@)
    }
}

impl IdentityMap {
    /// Each source identity registered at most once.
    pub open spec fn wf(&self) -> bool {
        distinct_keys(self.entries@)
    }

    /// An empty identity map.
    pub fn new() -> (r: IdentityMap)
        ensures
            r.wf(),
            r@ == Map::<ObjectId, ObjectId>::empty(),
    {
        IdentityMap { entries: Vec::new() }
    }

    /// How many source identities have been registered.
    pub fn len(&self) -> (r: usize)
        requires
            self.wf(),
        ensures
            r == self.entries@.len(),
            r == self@.dom().len(),
    {
        proof {
            lemma_identity_map_len(self.entries@);
        }
        self.entries.len()
    }

    /// The destination identity registered for `id`, if any.
    pub fn get(&self, id: ObjectId) -> (r: Option<ObjectId>)
        requires
            self.wf(),
        ensures
            match r {
                Some(did) => self@.dom().contains(id) && self@[id] == did,
                None => !self@.dom().contains(id),
            },
    {
        proof {
            lemma_assoc_map_dom(self.entries@);
        }
        let mut i: usize = 0;
        while i < self.entries.len()
            invariant
                self.wf(),
                0 <= i <= self.entries@.len(),
                forall|k: int| 0 <= k < i ==> (#[trigger] self.entries@[k]).0 != id,
            decreases self.entries@.len() - i,
        {
            let (sid, did) = self.entries[i];
            if sid.num == id.num && sid.gen == id.gen {
                proof {
                    lemma_assoc_map_index(self.entries@, i as int);
                }
                return Some(did);
            }
            i = i + 1;
        }
        proof {
            lemma_assoc_map_dom(self.entries@);
        }
        None
    }

    /// Registers a destination identity for a source identity not yet
    /// registered.
    pub fn insert(&mut self, sid: ObjectId, did: ObjectId)
        requires
            old(self).wf(),
            !old(self)@.dom().contains(sid),
        ensures
            final(self).wf(),
            final(self)@ == old(self)@.insert(sid, did),
    {
        proof {
            lemma_assoc_map_dom(self.entries@);
            lemma_assoc_map_push(self.entries@, sid, did);
        }
        self.entries.push((sid, did));
        proof {
            assert forall|i: int, j: int|
                0 <= i < j < self.entries@.len() implies (#[trigger] self.entries@[i]).0
                != (#[trigger] self.entries@[j]).0 by {
                if j == self.entries@.len() - 1 {
                    assert(old(self).entries@[i] == self.entries@[i]);
                }
            }
        }
    }
}

proof fn lemma_identity_map_len(entries: Seq<(ObjectId, ObjectId)>)
    requires
        distinct_keys(entries),
    ensures
        assoc_map(entries).dom().len() == entries.len(),
    decreases entries.len(),
{
    if entries.len() > 0 {
        assert(distinct_keys(entries.drop_last())) by {
            assert(forall|a: int, b: int|
                0 <= a < b < entries.len() - 1 ==> entries.drop_last()[a] == entries[a]
                    && entries.drop_last()[b] == entries[b]);
        }
        lemma_identity_map_len(entries.drop_last());
        lemma_assoc_map_dom(entries.drop_last());
        assert(!assoc_map(entries.drop_last()).dom().contains(entries.last().0)) by {
            if assoc_map(entries.drop_last()).dom().contains(entries.last().0) {
                let i = choose|i: int|
                    0 <= i < entries.drop_last().len() && (#[trigger] entries.drop_last()[i]).0
                        == entries.last().0;
                assert(entries[i].0 == entries[entries.len() - 1].0);
            }
        }
        assert(assoc_map(entries).dom() =~= assoc_map(entries.drop_last()).dom().insert(
            entries.last().0,
        ));
    }
}

/// In a well-formed document every table identity is bounded by `max_id`.
pub proof fn lemma_table_ids_bounded(doc: Document)
    requires
        doc.wf(),
    ensures
        forall|k: ObjectId| #[trigger] doc.table().dom().contains(k) ==> k.num <= doc.max_id,
{
    lemma_assoc_map_dom(table_entries(doc.objects@));
    assert forall|k: ObjectId| #[trigger] doc.table().dom().contains(k) implies k.num
        <= doc.max_id by {
        let i = choose|i: int|
            0 <= i < table_entries(doc.objects@).len() && (#[trigger] table_entries(
                doc.objects@,
            )[i]).0 == k;
        assert(doc.objects@[i].0 == k);
    }
}

/// The pairs of the object table with objects taken to their views.
pub open spec fn table_entries(objects: Seq<(ObjectId, Object)>) -> Seq<(ObjectId, ObjectV)> {
    objects.map_values(|p: (ObjectId, Object)| (p.0, p.1@))
}

/// A document: an object table, a page index, and a version string.
/// `max_id` bounds every identity the table holds, so that allocation
/// can always hand out a fresh one.
#[derive(Debug)]
pub struct Document {
    pub objects: Vec<(ObjectId, Object)>,
    pub pages: Vec<(u32, ObjectId)>,
    pub max_id: u32,
    pub version: String,
}

impl Document {
    /// The object table as a map from identities to object shapes.
    pub open spec fn table(&self) -> Map<ObjectId, ObjectV> {
        assoc_map(table_entries(self.objects@))
    }

    /// The page index as a map from page numbers to identities.
    pub open spec fn page_table(&self) -> Map<u32, ObjectId> {
        assoc_map(self.pages@)
    }

    /// Well-formed: object identities are distinct and bounded by
    /// `max_id`, and page numbers are distinct.
    pub open spec fn wf(&self) -> bool {
        &&& distinct_keys(self.objects@)
        &&& forall|i: int|
            0 <= i < self.objects@.len() ==> (#[trigger] self.objects@[i]).0.num <= self.max_id
        &&& distinct_keys(self.pages@)
    }

    /// An empty document at the given format version.
    pub fn with_version(version: &str) -> (r: Document)
        ensures
            r.wf(),
            r.table() == Map::<ObjectId, ObjectV>::empty(),
            r.page_table() == Map::<u32, ObjectId>::empty(),
            r.max_id == 0,
            r.version@ == version@,
            r.objects@.len() == 0,
            r.pages@.len() == 0,
    {
        let r = Document {
            objects: Vec::new(),
            pages: Vec::new(),
            max_id: 0,
            version: version.to_owned(),
        };
        proof {
            assert(table_entries(r.objects@) =~= Seq::<(ObjectId, ObjectV)>::empty());
        }
        r
    }

    /// How many objects the table holds.
    pub fn object_count(&self) -> (r: usize)
        ensures
            r == self.objects@.len(),
    {
        self.objects.len()
    }

    /// How many pages the page index holds.
    pub fn page_count(&self) -> (r: usize)
        ensures
            r == self.pages@.len(),
    {
        self.pages.len()
    }

    /// The object registered under `id`, if any.
    pub fn get(&self, id: ObjectId) -> (r: Option<&Object>)
        requires
            self.wf(),
        ensures
            match r {
                Some(o) => self.table().dom().contains(id) && o@ == self.table()[id],
                None => !self.table().dom().contains(id),
            },
    {
        let ghost tev = table_entries(self.objects@);
        proof {
            lemma_assoc_map_dom(tev);
            assert(distinct_keys(tev)) by {
                assert(forall|k: int|
                    0 <= k < self.objects@.len() ==> (#[trigger] tev[k]).0 == self.objects@[k].0
                        && tev[k].1 == self.objects@[k].1@);
            }
        }
        let mut i: usize = 0;
        while i < self.objects.len()
            invariant
                self.wf(),
                tev == table_entries(self.objects@),
                distinct_keys(tev),
                tev.len() == self.objects@.len(),
                forall|k: int|
                    0 <= k < self.objects@.len() ==> (#[trigger] tev[k]).0 == self.objects@[k].0
                        && tev[k].1 == self.objects@[k].1@,
                0 <= i <= self.objects@.len(),
                forall|k: int| 0 <= k < i ==> (#[trigger] tev[k]).0 != id,
            decreases self.objects@.len() - i,
        {
            let oid = self.objects[i].0;
            if oid.num == id.num && oid.gen == id.gen {
                proof {
                    lemma_assoc_map_index(tev, i as int);
                }
                return Some(&self.objects[i].1);
            }
            i = i + 1;
        }
        proof {
            lemma_assoc_map_dom(tev);
        }
        None
    }

    /// Hands out a fresh identity, reserving it: no object of the table
    /// carries it, and no later allocation will repeat it.
    pub fn allocate_id(&mut self) -> (r: ObjectId)
        requires
            old(self).wf(),
            old(self).max_id < u32::MAX,
        ensures
            final(self).wf(),
            r.num == old(self).max_id + 1,
            r.gen == 0,
            final(self).max_id == old(self).max_id + 1,
            final(self).objects == old(self).objects,
            final(self).pages == old(self).pages,
            final(self).version == old(self).version,
            final(self).table() == old(self).table(),
            final(self).page_table() == old(self).page_table(),
            !final(self).table().dom().contains(r),
    {
        self.max_id = self.max_id + 1;
        let r = ObjectId { num: self.max_id, gen: 0 };
        proof {
            lemma_assoc_map_dom(table_entries(self.objects@));
            if self.table().dom().contains(r) {
                let i = choose|i: int|
                    0 <= i < table_entries(self.objects@).len() && (#[trigger] table_entries(
                        self.objects@,
                    )[i]).0 == r;
                assert(self.objects@[i].0.num <= old(self).max_id);
            }
        }
        r
    }

    /// Registers an object under a reserved identity.
    pub fn insert(&mut self, id: ObjectId, obj: Object)
        requires
            old(self).wf(),
            id.num <= old(self).max_id,
            !old(self).table().dom().contains(id),
        ensures
            final(self).wf(),
            final(self).table() == old(self).table().insert(id, obj@),
            final(self).objects@ == old(self).objects@.push((id, obj)),
            final(self).pages == old(self).pages,
            final(self).max_id == old(self).max_id,
            final(self).version == old(self).version,
            final(self).page_table() == old(self).page_table(),
    {
        proof {
            lemma_assoc_map_dom(table_entries(self.objects@));
            assert(forall|k: int|
                0 <= k < self.objects@.len() ==> (#[trigger] table_entries(self.objects@)[k]).0
                    == self.objects@[k].0);
        }
        let ghost old_objects = self.objects@;
        self.objects.push((id, obj));
        proof {
            assert(table_entries(self.objects@) =~= table_entries(old_objects).push((id, obj@)));
            lemma_assoc_map_push(table_entries(old_objects), id, obj@);
            assert forall|i: int, j: int|
                0 <= i < j < self.objects@.len() implies (#[trigger] self.objects@[i]).0
                != (#[trigger] self.objects@[j]).0 by {
                if j == self.objects@.len() - 1 {
                    assert(old_objects[i] == self.objects@[i]);
                    if self.objects@[i].0 == id {
                        assert(table_entries(old_objects)[i].0 == id);
                    }
                }
            }
        }
    }

    /// Allocates a fresh identity and registers the object under it.
    pub fn add_object(&mut self, obj: Object) -> (r: ObjectId)
        requires
            old(self).wf(),
            old(self).max_id < u32::MAX,
        ensures
            final(self).wf(),
            r.num == old(self).max_id + 1,
            r.gen == 0,
            final(self).max_id == old(self).max_id + 1,
            !old(self).table().dom().contains(r),
            final(self).table() == old(self).table().insert(r, obj@),
            final(self).objects@ == old(self).objects@.push((r, obj)),
            final(self).pages == old(self).pages,
            final(self).version == old(self).version,
            final(self).page_table() == old(self).page_table(),
    {
        let id = self.allocate_id();
        self.insert(id, obj);
        id
    }

    /// The root page identity registered under a page number, if any.
    pub fn get_page(&self, page_number: u32) -> (r: Option<ObjectId>)
        requires
            self.wf(),
        ensures
            match r {
                Some(id) => self.page_table().dom().contains(page_number)
                    && self.page_table()[page_number] == id,
                None => !self.page_table().dom().contains(page_number),
            },
    {
        proof {
            lemma_assoc_map_dom(self.pages@);
        }
        let mut i: usize = 0;
        while i < self.pages.len()
            invariant
                self.wf(),
                0 <= i <= self.pages@.len(),
                forall|k: int| 0 <= k < i ==> (#[trigger] self.pages@[k]).0 != page_number,
            decreases self.pages@.len() - i,
        {
            let (pn, id) = self.pages[i];
            if pn == page_number {
                proof {
                    lemma_assoc_map_index(self.pages@, i as int);
                }
                return Some(id);
            }
            i = i + 1;
        }
        proof {
            lemma_assoc_map_dom(self.pages@);
        }
        None
    }

    /// Registers a page identity under a page number not yet used.
    pub fn set_page(&mut self, page_number: u32, id: ObjectId)
        requires
            old(self).wf(),
            !old(self).page_table().dom().contains(page_number),
        ensures
            final(self).wf(),
            final(self).page_table() == old(self).page_table().insert(page_number, id),
            final(self).pages@ == old(self).pages@.push((page_number, id)),
            final(self).objects == old(self).objects,
            final(self).max_id == old(self).max_id,
            final(self).version == old(self).version,
            final(self).table() == old(self).table(),
    {
        proof {
            lemma_assoc_map_dom(self.pages@);
            lemma_assoc_map_push(self.pages@, page_number, id);
        }
        let ghost old_pages = self.pages@;
        self.pages.push((page_number, id));
        proof {
            assert forall|i: int, j: int|
                0 <= i < j < self.pages@.len() implies (#[trigger] self.pages@[i]).0
                != (#[trigger] self.pages@[j]).0 by {
                if j == self.pages@.len() - 1 {
                    assert(old_pages[i] == self.pages@[i]);
                }
            }
        }
    }
}

} // verus!
