use pdf_clean_margins::assemble::{assemble, parse_selections, CloneScope};
use pdf_clean_margins::compose::{build_output_page, import_page_as_form};
use pdf_clean_margins::document::{Document, IdentityMap};
use pdf_clean_margins::object::{DictEntry, Object, ObjectId};
use pdf_clean_margins::{ImportError, SpecError};

fn entry(key: &[u8], value: Object) -> DictEntry {
    DictEntry { key: key.to_vec(), value }
}

/// A two-page source document; page numbers 0 and 1.  Page 0 carries a
/// resource dictionary, page 1 has none.
fn two_page_source() -> Document {
    let mut src = Document::with_version("1.5");
    let c0 = src.add_object(Object::Stream(vec![], b"BT (p0) Tj ET".to_vec()));
    let font = src.add_object(Object::Dictionary(vec![entry(b"BaseFont", Object::Name(b"Helvetica".to_vec()))]));
    let p0 = src.add_object(Object::Dictionary(vec![
        entry(b"Type", Object::Name(b"Page".to_vec())),
        entry(b"Contents", Object::Reference(c0)),
        entry(
            b"Resources",
            Object::Dictionary(vec![entry(b"F1", Object::Reference(font))]),
        ),
    ]));
    let c1 = src.add_object(Object::Stream(vec![], b"BT (p1) Tj ET".to_vec()));
    let p1 = src.add_object(Object::Dictionary(vec![
        entry(b"Type", Object::Name(b"Page".to_vec())),
        entry(b"Contents", Object::Reference(c1)),
    ]));
    src.set_page(0, p0);
    src.set_page(1, p1);
    src
}

#[test]
fn import_page_without_resources_yields_empty_resource_set() {
    let src = two_page_source();
    let mut dst = Document::with_version("1.5");
    let mut map = IdentityMap::new();
    let fid = import_page_as_form(&mut dst, &src, 1, &mut map).unwrap();
    match dst.get(fid).unwrap() {
        Object::Stream(es, payload) => {
            assert_eq!(payload, &b"BT (p1) Tj ET".to_vec());
            let res = es.iter().find(|e| e.key == b"Resources".to_vec()).unwrap();
            assert_eq!(res.value, Object::Dictionary(vec![]));
            let ty = es.iter().find(|e| e.key == b"Type".to_vec()).unwrap();
            assert_eq!(ty.value, Object::Name(b"XObject".to_vec()));
            let st = es.iter().find(|e| e.key == b"Subtype".to_vec()).unwrap();
            assert_eq!(st.value, Object::Name(b"Form".to_vec()));
        },
        other => panic!("expected form stream, got {:?}", other),
    }
}

#[test]
fn import_page_with_resources_clones_them() {
    let src = two_page_source();
    let mut dst = Document::with_version("1.5");
    let mut map = IdentityMap::new();
    let fid = import_page_as_form(&mut dst, &src, 0, &mut map).unwrap();
    match dst.get(fid).unwrap() {
        Object::Stream(es, payload) => {
            assert_eq!(payload, &b"BT (p0) Tj ET".to_vec());
            let res = es.iter().find(|e| e.key == b"Resources".to_vec()).unwrap();
            match &res.value {
                Object::Dictionary(rs) => {
                    assert_eq!(rs[0].key, b"F1".to_vec());
                    match rs[0].value {
                        Object::Reference(r) => {
                            assert_eq!(
                                dst.get(r),
                                Some(&Object::Dictionary(vec![entry(
                                    b"BaseFont",
                                    Object::Name(b"Helvetica".to_vec()),
                                )])),
                            );
                        },
                        ref other => panic!("expected reference, got {:?}", other),
                    }
                },
                other => panic!("expected dictionary, got {:?}", other),
            }
        },
        other => panic!("expected form stream, got {:?}", other),
    }
}

#[test]
fn import_missing_page_fails_and_leaves_destination_untouched() {
    let src = two_page_source();
    let mut dst = Document::with_version("1.5");
    let mut map = IdentityMap::new();
    let r = import_page_as_form(&mut dst, &src, 9, &mut map);
    assert_eq!(r, Err(ImportError::PageNotFound));
    assert_eq!(dst.object_count(), 0);
    assert_eq!(dst.page_count(), 0);
    assert_eq!(map.len(), 0);
}

#[test]
fn build_output_page_emits_the_form_invocation() {
    let mut dst = Document::with_version("1.5");
    let form_id = ObjectId { num: 77, gen: 0 };
    let pid = build_output_page(&mut dst, form_id, false);
    assert_eq!(pid, ObjectId { num: 3, gen: 0 });
    let cid = ObjectId { num: 1, gen: 0 };
    let rid = ObjectId { num: 2, gen: 0 };
    assert_eq!(
        dst.get(cid),
        Some(&Object::Stream(vec![], b"q\n/Fm0 Do\nQ\n".to_vec())),
    );
    assert_eq!(
        dst.get(rid),
        Some(&Object::Dictionary(vec![entry(
            b"XObject",
            Object::Dictionary(vec![entry(b"Fm0", Object::Reference(form_id))]),
        )])),
    );
    match dst.get(pid).unwrap() {
        Object::Dictionary(es) => {
            let c = es.iter().find(|e| e.key == b"Contents".to_vec()).unwrap();
            assert_eq!(c.value, Object::Reference(cid));
            let r = es.iter().find(|e| e.key == b"Resources".to_vec()).unwrap();
            assert_eq!(r.value, Object::Reference(rid));
        },
        other => panic!("expected page dictionary, got {:?}", other),
    }
}

#[test]
fn build_output_page_with_overlay_appends_the_rectangle() {
    let mut dst = Document::with_version("1.5");
    let pid = build_output_page(&mut dst, ObjectId { num: 5, gen: 0 }, true);
    assert_eq!(pid, ObjectId { num: 3, gen: 0 });
    let expected: Vec<u8> = b"q\n/Fm0 Do\nQ\nq\n1 0 0 rg\n153 198 306 396 re\nf\nQ\n".to_vec();
    assert_eq!(
        dst.get(ObjectId { num: 1, gen: 0 }),
        Some(&Object::Stream(vec![], expected)),
    );
}

#[test]
fn end_to_end_two_selections_with_inheritance() {
    let specs = vec![String::from("0:10:10:10:10"), String::from("1::20")];
    let sels = parse_selections(&specs).unwrap();
    assert_eq!(sels.len(), 2);
    assert_eq!(sels[0].page_number, 0);
    assert_eq!((sels[0].left, sels[0].bottom, sels[0].right, sels[0].top), (10, 10, 10, 10));
    assert_eq!(sels[1].page_number, 1);
    assert_eq!((sels[1].left, sels[1].bottom, sels[1].right, sels[1].top), (10, 20, 10, 10));

    let src = two_page_source();
    let out = assemble(&src, &sels, false, CloneScope::PerPage).unwrap();
    assert_eq!(out.page_count(), 2);
    let p1 = out.get_page(1).unwrap();
    let p2 = out.get_page(2).unwrap();
    assert!(out.get(p1).is_some());
    assert!(out.get(p2).is_some());
    assert_ne!(p1, p2);
}

#[test]
fn end_to_end_page_only_selection_resolves_to_zero_margins() {
    let specs = vec![String::from("5")];
    let sels = parse_selections(&specs).unwrap();
    assert_eq!(sels[0].page_number, 5);
    assert_eq!((sels[0].left, sels[0].bottom, sels[0].right, sels[0].top), (0, 0, 0, 0));
}

#[test]
fn end_to_end_six_fields_rejected() {
    let specs = vec![String::from("1:1:1:1:1:1")];
    assert_eq!(parse_selections(&specs), Err(SpecError::MalformedSpec));
}

#[test]
fn assemble_missing_page_fails_fast() {
    let src = two_page_source();
    let sels = parse_selections(&vec![String::from("0"), String::from("7")]).unwrap();
    let r = assemble(&src, &sels, false, CloneScope::PerPage);
    assert!(matches!(r, Err(ImportError::PageNotFound)));
}

#[test]
fn assemble_duplicate_selections_make_independent_pages() {
    let src = two_page_source();
    let sels = parse_selections(&vec![String::from("0"), String::from("0")]).unwrap();
    let out = assemble(&src, &sels, false, CloneScope::PerPage).unwrap();
    assert_eq!(out.page_count(), 2);
}

#[test]
fn assemble_per_run_scope_succeeds() {
    let src = two_page_source();
    let sels = parse_selections(&vec![String::from("0"), String::from("1")]).unwrap();
    let per_run = assemble(&src, &sels, false, CloneScope::PerRun).unwrap();
    assert_eq!(per_run.page_count(), 2);
}

#[test]
fn assemble_overlay_marks_every_page() {
    let src = two_page_source();
    let sels = parse_selections(&vec![String::from("1")]).unwrap();
    let out = assemble(&src, &sels, true, CloneScope::PerPage).unwrap();
    let pid = out.get_page(1).unwrap();
    let contents_ref = match out.get(pid).unwrap() {
        Object::Dictionary(es) => {
            match es.iter().find(|e| e.key == b"Contents".to_vec()).unwrap().value {
                Object::Reference(r) => r,
                ref other => panic!("expected reference, got {:?}", other),
            }
        },
        other => panic!("expected page dictionary, got {:?}", other),
    };
    match out.get(contents_ref).unwrap() {
        Object::Stream(_, bytes) => {
            assert_eq!(
                bytes,
                &b"q\n/Fm0 Do\nQ\nq\n1 0 0 rg\n153 198 306 396 re\nf\nQ\n".to_vec(),
            );
        },
        other => panic!("expected stream, got {:?}", other),
    }
}

#[test]
fn assembled_form_carries_the_source_page_content() {
    let src = two_page_source();
    let sels = parse_selections(&vec![String::from("0")]).unwrap();
    let out = assemble(&src, &sels, false, CloneScope::PerPage).unwrap();
    let pid = out.get_page(1).unwrap();
    let page = match out.get(pid).unwrap() {
        Object::Dictionary(es) => es,
        other => panic!("expected page dictionary, got {:?}", other),
    };
    let rid = match page.iter().find(|e| e.key == b"Resources".to_vec()).unwrap().value {
        Object::Reference(r) => r,
        ref other => panic!("expected reference, got {:?}", other),
    };
    let res = match out.get(rid).unwrap() {
        Object::Dictionary(es) => es,
        other => panic!("expected resources dictionary, got {:?}", other),
    };
    let xobjects = match &res.iter().find(|e| e.key == b"XObject".to_vec()).unwrap().value {
        Object::Dictionary(es) => es,
        other => panic!("expected XObject dictionary, got {:?}", other),
    };
    let fid = match xobjects.iter().find(|e| e.key == b"Fm0".to_vec()).unwrap().value {
        Object::Reference(r) => r,
        ref other => panic!("expected reference, got {:?}", other),
    };
    match out.get(fid).unwrap() {
        Object::Stream(_, payload) => assert_eq!(payload, &b"BT (p0) Tj ET".to_vec()),
        other => panic!("expected form stream, got {:?}", other),
    }
}
