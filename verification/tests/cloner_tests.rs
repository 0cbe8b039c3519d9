use pdf_clean_margins::cloner::{clone_object, clone_value};
use pdf_clean_margins::document::{Document, IdentityMap};
use pdf_clean_margins::object::{DictEntry, Object, ObjectId};
use pdf_clean_margins::ImportError;

#[test]
fn clone_scalar_value() {
    let src = Document::with_version("1.5");
    let mut dst = Document::with_version("1.5");
    let mut map = IdentityMap::new();
    let v = clone_value(&src, &mut dst, &Object::Integer(42), &mut map).unwrap();
    assert_eq!(v, Object::Integer(42));
    assert_eq!(dst.object_count(), 0);
}

#[test]
fn clone_deep_structure() {
    let mut src = Document::with_version("1.5");
    let inner = src.add_object(Object::Text(b"shared".to_vec()));
    let obj = Object::Array(vec![
        Object::Null,
        Object::Boolean(true),
        Object::Real(0x3f800000),
        Object::Dictionary(vec![DictEntry {
            key: b"K".to_vec(),
            value: Object::Reference(inner),
        }]),
    ]);
    let mut dst = Document::with_version("1.5");
    let mut map = IdentityMap::new();
    let v = clone_value(&src, &mut dst, &obj, &mut map).unwrap();
    // The referenced object was copied once, under a destination identity.
    assert_eq!(dst.object_count(), 1);
    let did = map.get(inner).unwrap();
    assert_eq!(dst.get(did), Some(&Object::Text(b"shared".to_vec())));
    match v {
        Object::Array(els) => {
            assert_eq!(els[0], Object::Null);
            assert_eq!(els[1], Object::Boolean(true));
            assert_eq!(els[2], Object::Real(0x3f800000));
            match &els[3] {
                Object::Dictionary(es) => {
                    assert_eq!(es[0].key, b"K".to_vec());
                    assert_eq!(es[0].value, Object::Reference(did));
                },
                other => panic!("expected dictionary, got {:?}", other),
            }
        },
        other => panic!("expected array, got {:?}", other),
    }
}

#[test]
fn clone_reference_cycle_terminates_and_keeps_shape() {
    let mut src = Document::with_version("1.5");
    let a = src.allocate_id();
    let b = src.allocate_id();
    src.insert(a, Object::Reference(b));
    src.insert(b, Object::Reference(a));

    let mut dst = Document::with_version("1.5");
    let mut map = IdentityMap::new();
    let a2 = clone_object(&src, &mut dst, a, &mut map).unwrap();
    let b2 = map.get(b).unwrap();
    assert_ne!(a2, b2);
    assert_eq!(dst.object_count(), 2);
    assert_eq!(dst.get(a2), Some(&Object::Reference(b2)));
    assert_eq!(dst.get(b2), Some(&Object::Reference(a2)));
}

#[test]
fn clone_twice_is_idempotent_and_copies_once() {
    let mut src = Document::with_version("1.5");
    let id = src.add_object(Object::Name(b"X".to_vec()));

    let mut dst = Document::with_version("1.5");
    let mut map = IdentityMap::new();
    let first = clone_object(&src, &mut dst, id, &mut map).unwrap();
    let count_after_first = dst.object_count();
    let second = clone_object(&src, &mut dst, id, &mut map).unwrap();
    assert_eq!(first, second);
    assert_eq!(dst.object_count(), count_after_first);
    assert_eq!(count_after_first, 1);
    assert_eq!(map.len(), 1);
}

#[test]
fn shared_subobject_is_deduplicated() {
    let mut src = Document::with_version("1.5");
    let shared = src.add_object(Object::Integer(7));
    let left = src.add_object(Object::Reference(shared));
    let right = src.add_object(Object::Reference(shared));
    let root = src.add_object(Object::Array(vec![
        Object::Reference(left),
        Object::Reference(right),
    ]));

    let mut dst = Document::with_version("1.5");
    let mut map = IdentityMap::new();
    clone_object(&src, &mut dst, root, &mut map).unwrap();
    // Four source objects yield exactly four destination objects: the
    // shared target is not duplicated.
    assert_eq!(dst.object_count(), 4);
}

#[test]
fn dangling_reference_fails() {
    let mut src = Document::with_version("1.5");
    let missing = ObjectId { num: 99, gen: 0 };
    let root = src.add_object(Object::Array(vec![Object::Reference(missing)]));

    let mut dst = Document::with_version("1.5");
    let mut map = IdentityMap::new();
    let r = clone_object(&src, &mut dst, root, &mut map);
    assert_eq!(r, Err(ImportError::DanglingReference));
}

#[test]
fn stream_payload_is_carried_unchanged() {
    let mut src = Document::with_version("1.5");
    let id = src.add_object(Object::Stream(
        vec![DictEntry { key: b"Length".to_vec(), value: Object::Integer(3) }],
        b"abc".to_vec(),
    ));
    let mut dst = Document::with_version("1.5");
    let mut map = IdentityMap::new();
    let did = clone_object(&src, &mut dst, id, &mut map).unwrap();
    match dst.get(did).unwrap() {
        Object::Stream(es, payload) => {
            assert_eq!(payload, &b"abc".to_vec());
            assert_eq!(es[0].key, b"Length".to_vec());
            assert_eq!(es[0].value, Object::Integer(3));
        },
        other => panic!("expected stream, got {:?}", other),
    }
}
