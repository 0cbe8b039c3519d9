//! The document object model: typed objects that cross-reference one
//! another by identity, forming a graph in which references are the only
//! construct that can close a cycle.

use vstd::prelude::*;

verus! {

broadcast use vstd::seq::group_seq_axioms, vstd::std_specs::vec::group_vec_axioms, vstd::set::group_set_axioms;

/// An object identity: a number and a generation, unique within one
/// document's identity space.  Identities of different documents are not
/// comparable without a mapping.
#[derive(Clone, Copy, Debug, PartialEq, Eq, Hash, Structural)]
pub struct ObjectId {
    pub num: u32,
    pub gen: u16,
}

/// One key-value pair of a dictionary.  Key order is irrelevant to the
/// semantics but preserved for determinism; lookups take the first match.
#[derive(Debug, PartialEq)]
pub struct DictEntry {
    pub key: Vec<u8>,
    pub value: Object,
}

/// A document object.  Real numbers are carried as their IEEE-754 single
/// bit pattern: the engine never computes with them, it only copies them.
#[derive(Debug, PartialEq)]
pub enum Object {
    Null,
    Boolean(bool),
    Integer(i64),
    Real(u32),
    Text(Vec<u8>),
    Name(Vec<u8>),
    Array(Vec<Object>),
    Dictionary(Vec<DictEntry>),
    Stream(Vec<DictEntry>, Vec<u8>),
    Reference(ObjectId),
}

/// The mathematical shape of a dictionary entry.
pub struct EntryV {
    pub key: Seq<u8>,
    pub val: ObjectV,
}

/// The mathematical shape of an object.
pub enum ObjectV {
    Null,
    Boolean(bool),
    Integer(i64),
    Real(u32),
    Text(Seq<u8>),
    Name(Seq<u8>),
    Array(Seq<ObjectV>),
    Dictionary(Seq<EntryV>),
    Stream(Seq<EntryV>, Seq<u8>),
    Reference(ObjectId),
}

/// The views of a sequence of objects, in order.
pub open spec fn view_els(s: Seq<Object>) -> Seq<ObjectV>
    decreases s,
{
    if s.len() == 0 {
        Seq::empty()
    } else {
        seq![s.first()@] + view_els(s.skip(1))
    }
}

/// The views of a sequence of dictionary entries, in order.
pub open spec fn entries_view(s: Seq<DictEntry>) -> Seq<EntryV>
    decreases s,
{
    if s.len() == 0 {
        Seq::empty()
    } else {
        seq![s.first()@] + entries_view(s.skip(1))
    }
}

impl View for DictEntry {
    type V = EntryV;

    open spec fn view(&self) -> EntryV
        decreases self,
    {
        EntryV { key: self.key@, val: self.value@ }
    }
}

impl View for Object {
    type V = ObjectV;

    open spec fn view(&self) -> ObjectV
        decreases self,
    {
        match self {
            Object::Null => ObjectV::Null,
            Object::Boolean(b) => ObjectV::Boolean(*b),
            Object::Integer(n) => ObjectV::Integer(*n),
            Object::Real(bits) => ObjectV::Real(*bits),
            Object::Text(v) => ObjectV::Text(v@),
            Object::Name(v) => ObjectV::Name(v@),
            Object::Array(els) => {
                proof {
                    assert(decreases_to!(*self => *els));
                    assert(decreases_to!(*els => els@));
                }
                ObjectV::Array(view_els(els@))
            },
            Object::Dictionary(es) => {
                proof {
                    assert(decreases_to!(*self => *es));
                    assert(decreases_to!(*es => es@));
                }
                ObjectV::Dictionary(entries_view(es@))
            },
            Object::Stream(es, payload) => {
                proof {
                    assert(decreases_to!(*self => *es));
                    assert(decreases_to!(*es => es@));
                }
                ObjectV::Stream(entries_view(es@), payload@)
            },
            Object::Reference(id) => ObjectV::Reference(*id),
        }
    }
}

pub proof fn lemma_view_els(s: Seq<Object>)
    ensures
        view_els(s).len() == s.len(),
        forall|i: int|
            #![trigger view_els(s)[i]]
            #![trigger s[i]@]
            0 <= i < s.len() ==> view_els(s)[i] == s[i]@,
    decreases s.len(),
{
    if s.len() > 0 {
        lemma_view_els(s.skip(1));
        assert(view_els(s) == seq![s.first()@] + view_els(s.skip(1)));
        assert forall|i: int|
            #![trigger view_els(s)[i]]
            #![trigger s[i]@]
            0 <= i < s.len() implies view_els(s)[i] == s[i]@ by {
            if i > 0 {
                assert(view_els(s)[i] == view_els(s.skip(1))[i - 1]);
                assert(s.skip(1)[i - 1] == s[i]);
            }
        }
    }
}

pub proof fn lemma_entries_view(s: Seq<DictEntry>)
    ensures
        entries_view(s).len() == s.len(),
        forall|i: int|
            #![trigger entries_view(s)[i]]
            #![trigger s[i]@]
            0 <= i < s.len() ==> entries_view(s)[i] == s[i]@,
    decreases s.len(),
{
    if s.len() > 0 {
        lemma_entries_view(s.skip(1));
        assert(entries_view(s) == seq![s.first()@] + entries_view(s.skip(1)));
        assert forall|i: int|
            #![trigger entries_view(s)[i]]
            #![trigger s[i]@]
            0 <= i < s.len() implies entries_view(s)[i] == s[i]@ by {
            if i > 0 {
                assert(entries_view(s)[i] == entries_view(s.skip(1))[i - 1]);
                assert(s.skip(1)[i - 1] == s[i]);
            }
        }
    }
}

/// The identities that an object refers to, at any depth below it but not
/// through references: exactly the targets of the `Reference` leaves of
/// its own tree.
pub open spec fn obj_refs(o: ObjectV) -> Set<ObjectId>
    decreases o,
{
    match o {
        ObjectV::Reference(id) => Set::empty().insert(id),
        ObjectV::Array(els) => refs_seq(els),
        ObjectV::Dictionary(es) => refs_entries(es),
        ObjectV::Stream(es, _) => refs_entries(es),
        _ => Set::empty(),
    }
}

pub open spec fn refs_seq(els: Seq<ObjectV>) -> Set<ObjectId>
    decreases els,
{
    if els.len() == 0 {
        Set::empty()
    } else {
        obj_refs(els.first()).union(refs_seq(els.skip(1)))
    }
}

pub open spec fn refs_entries(es: Seq<EntryV>) -> Set<ObjectId>
    decreases es,
{
    if es.len() == 0 {
        Set::empty()
    } else {
        proof {
            assert(decreases_to!(es => es.first()));
            assert(decreases_to!(es.first() => es.first().val));
        }
        obj_refs(es.first().val).union(refs_entries(es.skip(1)))
    }
}

pub proof fn lemma_refs_seq(els: Seq<ObjectV>)
    ensures
        forall|id: ObjectId|
            #[trigger] refs_seq(els).contains(id) <==> exists|i: int|
                0 <= i < els.len() && #[trigger] obj_refs(els[i]).contains(id),
    decreases els.len(),
{
    if els.len() > 0 {
        lemma_refs_seq(els.skip(1));
        assert(refs_seq(els) == obj_refs(els.first()).union(refs_seq(els.skip(1))));
        assert forall|id: ObjectId| #[trigger] refs_seq(els).contains(id) implies exists|i: int|
            0 <= i < els.len() && #[trigger] obj_refs(els[i]).contains(id) by {
            if obj_refs(els.first()).contains(id) {
                assert(obj_refs(els[0]).contains(id));
            } else {
                let j = choose|j: int|
                    0 <= j < els.skip(1).len() && #[trigger] obj_refs(els.skip(1)[j]).contains(id);
                assert(els.skip(1)[j] == els[j + 1]);
                assert(obj_refs(els[j + 1]).contains(id));
            }
        }
        assert forall|id: ObjectId, i: int|
            0 <= i < els.len() && #[trigger] obj_refs(els[i]).contains(id) implies refs_seq(
            els,
        ).contains(id) by {
            if i > 0 {
                assert(els.skip(1)[i - 1] == els[i]);
                assert(obj_refs(els.skip(1)[i - 1]).contains(id));
            } else {
                assert(obj_refs(els.first()).contains(id));
            }
        }
    }
}

pub proof fn lemma_refs_entries(es: Seq<EntryV>)
    ensures
        forall|id: ObjectId|
            #[trigger] refs_entries(es).contains(id) <==> exists|i: int|
                0 <= i < es.len() && #[trigger] obj_refs(es[i].val).contains(id),
    decreases es.len(),
{
    if es.len() > 0 {
        lemma_refs_entries(es.skip(1));
        assert(refs_entries(es) == obj_refs(es.first().val).union(refs_entries(es.skip(1))));
        assert forall|id: ObjectId| #[trigger] refs_entries(es).contains(id) implies exists|i: int|
            0 <= i < es.len() && #[trigger] obj_refs(es[i].val).contains(id) by {
            if obj_refs(es.first().val).contains(id) {
                assert(obj_refs(es[0].val).contains(id));
            } else {
                let j = choose|j: int|
                    0 <= j < es.skip(1).len() && #[trigger] obj_refs(
                        es.skip(1)[j].val,
                    ).contains(id);
                assert(es.skip(1)[j] == es[j + 1]);
                assert(obj_refs(es[j + 1].val).contains(id));
            }
        }
        assert forall|id: ObjectId, i: int|
            0 <= i < es.len() && #[trigger] obj_refs(es[i].val).contains(id) implies refs_entries(
            es,
        ).contains(id) by {
            if i > 0 {
                assert(es.skip(1)[i - 1] == es[i]);
                assert(obj_refs(es.skip(1)[i - 1].val).contains(id));
            } else {
                assert(obj_refs(es.first().val).contains(id));
            }
        }
    }
}

/// The object with every reference it contains rewritten through `m`.
/// A reference outside `m`'s domain is kept as it stands.
pub open spec fn rename(m: Map<ObjectId, ObjectId>, o: ObjectV) -> ObjectV
    decreases o,
{
    match o {
        ObjectV::Reference(id) => ObjectV::Reference(
            if m.dom().contains(id) {
                m[id]
            } else {
                id
            },
        ),
        ObjectV::Array(els) => ObjectV::Array(rename_seq(m, els)),
        ObjectV::Dictionary(es) => ObjectV::Dictionary(rename_entries(m, es)),
        ObjectV::Stream(es, payload) => ObjectV::Stream(rename_entries(m, es), payload),
        _ => o,
    }
}

pub open spec fn rename_seq(m: Map<ObjectId, ObjectId>, els: Seq<ObjectV>) -> Seq<ObjectV>
    decreases els,
{
    if els.len() == 0 {
        Seq::empty()
    } else {
        seq![rename(m, els.first())] + rename_seq(m, els.skip(1))
    }
}

pub open spec fn rename_entries(m: Map<ObjectId, ObjectId>, es: Seq<EntryV>) -> Seq<EntryV>
    decreases es,
{
    if es.len() == 0 {
        Seq::empty()
    } else {
        proof {
            assert(decreases_to!(es => es.first()));
            assert(decreases_to!(es.first() => es.first().val));
        }
        seq![EntryV { key: es.first().key, val: rename(m, es.first().val) }] + rename_entries(
            m,
            es.skip(1),
        )
    }
}

pub proof fn lemma_rename_seq(m: Map<ObjectId, ObjectId>, els: Seq<ObjectV>)
    ensures
        rename_seq(m, els).len() == els.len(),
        forall|i: int|
            #![trigger rename_seq(m, els)[i]]
            #![trigger rename(m, els[i])]
            0 <= i < els.len() ==> rename_seq(m, els)[i] == rename(m, els[i]),
    decreases els.len(),
{
    if els.len() > 0 {
        lemma_rename_seq(m, els.skip(1));
        assert(rename_seq(m, els) == seq![rename(m, els.first())] + rename_seq(m, els.skip(1)));
        assert forall|i: int|
            #![trigger rename_seq(m, els)[i]]
            #![trigger rename(m, els[i])]
            0 <= i < els.len() implies rename_seq(m, els)[i] == rename(m, els[i]) by {
            if i > 0 {
                assert(rename_seq(m, els)[i] == rename_seq(m, els.skip(1))[i - 1]);
                assert(els.skip(1)[i - 1] == els[i]);
            }
        }
    }
}

pub proof fn lemma_rename_entries(m: Map<ObjectId, ObjectId>, es: Seq<EntryV>)
    ensures
        rename_entries(m, es).len() == es.len(),
        forall|i: int|
            #![trigger rename_entries(m, es)[i]]
            #![trigger rename(m, es[i].val)]
            0 <= i < es.len() ==> rename_entries(m, es)[i] == (EntryV {
                key: es[i].key,
                val: rename(m, es[i].val),
            }),
    decreases es.len(),
{
    if es.len() > 0 {
        lemma_rename_entries(m, es.skip(1));
        assert(rename_entries(m, es) == seq![
            EntryV { key: es.first().key, val: rename(m, es.first().val) },
        ] + rename_entries(m, es.skip(1)));
        assert forall|i: int|
            #![trigger rename_entries(m, es)[i]]
            #![trigger rename(m, es[i].val)]
            0 <= i < es.len() implies rename_entries(m, es)[i] == (EntryV {
            key: es[i].key,
            val: rename(m, es[i].val),
        }) by {
            if i > 0 {
                assert(rename_entries(m, es)[i] == rename_entries(m, es.skip(1))[i - 1]);
                assert(es.skip(1)[i - 1] == es[i]);
            }
        }
    }
}

/// Renaming reads the map only at the object's own references: growing
/// the map beyond them leaves the renamed object unchanged.
pub proof fn lemma_rename_stable(
    m1: Map<ObjectId, ObjectId>,
    m2: Map<ObjectId, ObjectId>,
    o: ObjectV,
)
    requires
        m1.submap_of(m2),
        obj_refs(o).subset_of(m1.dom()),
    ensures
        rename(m2, o) == rename(m1, o),
    decreases o,
{
    match o {
        ObjectV::Reference(id) => {
            assert(obj_refs(o).contains(id));
        },
        ObjectV::Array(els) => {
            lemma_rename_seq_stable(m1, m2, els);
        },
        ObjectV::Dictionary(es) => {
            lemma_rename_entries_stable(m1, m2, es);
        },
        ObjectV::Stream(es, _) => {
            lemma_rename_entries_stable(m1, m2, es);
        },
        _ => {},
    }
}

proof fn lemma_rename_seq_stable(
    m1: Map<ObjectId, ObjectId>,
    m2: Map<ObjectId, ObjectId>,
    els: Seq<ObjectV>,
)
    requires
        m1.submap_of(m2),
        refs_seq(els).subset_of(m1.dom()),
    ensures
        rename_seq(m2, els) == rename_seq(m1, els),
    decreases els,
{
    if els.len() > 0 {
        assert forall|id: ObjectId| obj_refs(els.first()).contains(id) implies m1.dom().contains(
            id,
        ) by {
            assert(refs_seq(els).contains(id));
        }
        lemma_rename_stable(m1, m2, els.first());
        assert forall|id: ObjectId| refs_seq(els.skip(1)).contains(id) implies m1.dom().contains(
            id,
        ) by {
            assert(refs_seq(els).contains(id));
        }
        lemma_rename_seq_stable(m1, m2, els.skip(1));
    }
}

proof fn lemma_rename_entries_stable(
    m1: Map<ObjectId, ObjectId>,
    m2: Map<ObjectId, ObjectId>,
    es: Seq<EntryV>,
)
    requires
        m1.submap_of(m2),
        refs_entries(es).subset_of(m1.dom()),
    ensures
        rename_entries(m2, es) == rename_entries(m1, es),
    decreases es,
{
    if es.len() > 0 {
        assert(decreases_to!(es => es.first()));
        assert(decreases_to!(es.first() => es.first().val));
        assert forall|id: ObjectId| obj_refs(es.first().val).contains(id) implies m1.dom().contains(
            id,
        ) by {
            assert(refs_entries(es).contains(id));
        }
        lemma_rename_stable(m1, m2, es.first().val);
        assert forall|id: ObjectId| refs_entries(es.skip(1)).contains(id) implies m1.dom().contains(
            id,
        ) by {
            assert(refs_entries(es).contains(id));
        }
        lemma_rename_entries_stable(m1, m2, es.skip(1));
    }
}

/// First-match lookup among dictionary entries.
pub open spec fn dict_lookup(es: Seq<EntryV>, key: Seq<u8>) -> Option<ObjectV>
    decreases es.len(),
{
    if es.len() == 0 {
        None
    } else if es[0].key == key {
        Some(es[0].val)
    } else {
        dict_lookup(es.skip(1), key)
    }
}

proof fn lemma_dict_lookup_at(es: Seq<EntryV>, key: Seq<u8>, i: int)
    requires
        0 <= i < es.len(),
        es[i].key == key,
        forall|k: int| 0 <= k < i ==> es[k].key != key,
    ensures
        dict_lookup(es, key) == Some(es[i].val),
    decreases i,
{
    if i > 0 {
        assert(forall|k: int| 0 <= k < i - 1 ==> es.skip(1)[k] == es[k + 1]);
        assert(es.skip(1)[i - 1] == es[i]);
        lemma_dict_lookup_at(es.skip(1), key, i - 1);
    }
}

proof fn lemma_dict_lookup_none(es: Seq<EntryV>, key: Seq<u8>)
    requires
        forall|k: int| 0 <= k < es.len() ==> es[k].key != key,
    ensures
        dict_lookup(es, key) is None,
    decreases es.len(),
{
    if es.len() > 0 {
        assert(forall|k: int| 0 <= k < es.len() - 1 ==> es.skip(1)[k] == es[k + 1]);
        lemma_dict_lookup_none(es.skip(1), key);
    }
}

/// Byte-for-byte equality of two byte vectors.
pub fn bytes_eq(a: &Vec<u8>, b: &Vec<u8>) -> (r: bool)
    ensures
        r <==> a@ == b@,
{
    if a.len() != b.len() {
        proof {
            assert(a@ != b@) by {
                assert(a@.len() != b@.len());
            }
        }
        return false;
    }
    let mut i: usize = 0;
    while i < a.len()
        invariant
            a@.len() == b@.len(),
            0 <= i <= a@.len(),
            forall|k: int| 0 <= k < i ==> a@[k] == b@[k],
        decreases a@.len() - i,
    {
        if a[i] != b[i] {
            return false;
        }
        i = i + 1;
    }
    proof {
        assert(a@ =~= b@);
    }
    true
}

/// A fresh copy of a byte vector.
pub fn copy_bytes(v: &Vec<u8>) -> (r: Vec<u8>)
    ensures
        r@ == v@,
{
    let mut out: Vec<u8> = Vec::new();
    let mut i: usize = 0;
    while i < v.len()
        invariant
            0 <= i <= v@.len(),
            out@ =~= v@.take(i as int),
        decreases v@.len() - i,
    {
        out.push(v[i]);
        proof {
            assert(out@ =~= v@.take(i + 1));
        }
        i = i + 1;
    }
    proof {
        assert(v@.take(v@.len() as int) =~= v@);
    }
    out
}

/// Finds the first entry of `es` whose key equals `key`.
pub fn dict_find<'a>(es: &'a Vec<DictEntry>, key: &Vec<u8>) -> (r: Option<&'a Object>)
    ensures
        match r {
            Some(o) => dict_lookup(entries_view(es@), key@) == Some(o@),
            None => dict_lookup(entries_view(es@), key@) is None,
        },
{
    proof {
        lemma_entries_view(es@);
    }
    let ghost esv = entries_view(es@);
    let mut i: usize = 0;
    while i < es.len()
        invariant
            esv == entries_view(es@),
            esv.len() == es@.len(),
            forall|k: int| 0 <= k < es@.len() ==> esv[k] == #[trigger] es@[k]@,
            0 <= i <= es@.len(),
            forall|k: int| 0 <= k < i ==> esv[k].key != key@,
        decreases es@.len() - i,
    {
        proof {
            assert(esv[i as int] == es@[i as int]@);
        }
        if bytes_eq(&es[i].key, key) {
            proof {
                lemma_dict_lookup_at(esv, key@, i as int);
            }
            return Some(&es[i].value);
        }
        i = i + 1;
    }
    proof {
        lemma_dict_lookup_none(esv, key@);
    }
    None
}

} // verus!
