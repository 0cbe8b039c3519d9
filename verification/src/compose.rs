//! The page compositor: wraps an imported page's content and resources
//! into a reusable form object, and builds a fresh output page whose
//! content stream draws that form.
//!
//! The page size and the form's bounding box are fixed; the form is
//! always invoked under the resource name `Fm0`.  A page without a
//! resource dictionary is imported with an empty resource set — that is
//! a deliberate permissive fallback, not an error.

use vstd::prelude::*;
use crate::ImportError;
use crate::cloner::{
    clone_state_ok, clone_value, refs_resolvable, unmapped,
};
use crate::document::{Document, IdentityMap};
use crate::object::{
    dict_find, dict_lookup, copy_bytes, entries_view, lemma_entries_view, obj_refs, rename,
    rename_entries, DictEntry, EntryV, Object, ObjectId, ObjectV,
};

verus! {

broadcast use vstd::seq::group_seq_axioms, vstd::std_specs::vec::group_vec_axioms, vstd::set::group_set_axioms, vstd::map::group_map_axioms, vstd::string::group_string_axioms;

/// Fixed page width and height, in default user-space units.
pub const PAGE_WIDTH: i64 = 612;

pub const PAGE_HEIGHT: i64 = 792;

/// The bytes of an ASCII string, character for character.
pub open spec fn ascii_bytes_of(s: Seq<char>) -> Seq<u8> {
    Seq::new(s.len(), |i: int| s[i] as u8)
}

/// The bytes of an ASCII name or operator string.
fn key_bytes(s: &str) -> (r: Vec<u8>)
    requires
        vstd::string::is_ascii(s),
    ensures
        r@ == ascii_bytes_of(s@),
{
    let v = s.as_bytes_vec();
    proof {
        vstd::string::is_ascii_spec_bytes(s);
        vstd::utf8::is_ascii_chars_encode_utf8(s@);
        assert(v@ =~= ascii_bytes_of(s@));
    }
    v
}

/// Appends the bytes of `b` to `a`.
fn append_bytes(a: &mut Vec<u8>, b: &Vec<u8>)
    ensures
        final(a)@ == old(a)@ + b@,
{
    let mut i: usize = 0;
    while i < b.len()
        invariant
            0 <= i <= b@.len(),
            a@ == old(a)@ + b@.take(i as int),
        decreases b@.len() - i,
    {
        a.push(b[i]);
        proof {
            assert(old(a)@ + b@.take(i + 1) =~= (old(a)@ + b@.take(i as int)).push(b@[i as int]));
        }
        i = i + 1;
    }
    proof {
        assert(old(a)@ + b@.take(b@.len() as int) =~= old(a)@ + b@);
    }
}

pub open spec fn type_key() -> Seq<u8> {
    ascii_bytes_of("Type"@)
}

pub open spec fn subtype_key() -> Seq<u8> {
    ascii_bytes_of("Subtype"@)
}

pub open spec fn xobject_name() -> Seq<u8> {
    ascii_bytes_of("XObject"@)
}

pub open spec fn form_name() -> Seq<u8> {
    ascii_bytes_of("Form"@)
}

pub open spec fn page_name() -> Seq<u8> {
    ascii_bytes_of("Page"@)
}

pub open spec fn bbox_key() -> Seq<u8> {
    ascii_bytes_of("BBox"@)
}

pub open spec fn mediabox_key() -> Seq<u8> {
    ascii_bytes_of("MediaBox"@)
}

pub open spec fn resources_key() -> Seq<u8> {
    ascii_bytes_of("Resources"@)
}

pub open spec fn contents_key() -> Seq<u8> {
    ascii_bytes_of("Contents"@)
}

pub open spec fn form_resource_name() -> Seq<u8> {
    ascii_bytes_of("Fm0"@)
}

/// The fixed bounding box `[0 0 612 792]`.
pub open spec fn bbox_value() -> ObjectV {
    ObjectV::Array(
        seq![
            ObjectV::Integer(0),
            ObjectV::Integer(0),
            ObjectV::Integer(PAGE_WIDTH as i64),
            ObjectV::Integer(PAGE_HEIGHT as i64),
        ],
    )
}

/// The content-stream program of an output page: save state, invoke the
/// form, restore state; with the overlay, additionally a filled red
/// rectangle centered in the page, half its width and height.
pub open spec fn draw_form_ops() -> Seq<u8> {
    ascii_bytes_of("q\n/Fm0 Do\nQ\n"@)
}

pub open spec fn overlay_ops() -> Seq<u8> {
    ascii_bytes_of("q\n1 0 0 rg\n153 198 306 396 re\nf\nQ\n"@)
}

pub open spec fn content_ops(overlay: bool) -> Seq<u8> {
    if overlay {
        draw_form_ops() + overlay_ops()
    } else {
        draw_form_ops()
    }
}

/// The page object of a source page number.
pub open spec fn spec_page_obj(src: Document, page_number: u32) -> ObjectV {
    src.table()[src.page_table()[page_number]]
}

pub open spec fn page_exists(src: Document, page_number: u32) -> bool {
    src.page_table().dom().contains(page_number)
}

pub open spec fn page_obj_present(src: Document, page_number: u32) -> bool {
    src.table().dom().contains(src.page_table()[page_number])
}

/// The page's raw content bytes: the stream under its `Contents` entry,
/// direct or through one reference; anything else counts as empty.
pub open spec fn page_content_of(srcv: Map<ObjectId, ObjectV>, page: ObjectV) -> Seq<u8> {
    match page {
        ObjectV::Dictionary(es) => match dict_lookup(es, contents_key()) {
            Some(ObjectV::Stream(_, bytes)) => bytes,
            Some(ObjectV::Reference(r)) => if srcv.dom().contains(r) {
                match srcv[r] {
                    ObjectV::Stream(_, bytes) => bytes,
                    _ => Seq::empty(),
                }
            } else {
                Seq::empty()
            },
            _ => Seq::empty(),
        },
        _ => Seq::empty(),
    }
}

/// Whether the page's `Contents` entry avoids a dangling reference.
pub open spec fn page_content_ok(srcv: Map<ObjectId, ObjectV>, page: ObjectV) -> bool {
    match page {
        ObjectV::Dictionary(es) => match dict_lookup(es, contents_key()) {
            Some(ObjectV::Reference(r)) => srcv.dom().contains(r),
            _ => true,
        },
        _ => true,
    }
}

/// The page's resource object; absence means an empty resource set.
pub open spec fn page_resources_of(page: ObjectV) -> ObjectV {
    match page {
        ObjectV::Dictionary(es) => match dict_lookup(es, resources_key()) {
            Some(r) => r,
            None => ObjectV::Dictionary(Seq::empty()),
        },
        _ => ObjectV::Dictionary(Seq::empty()),
    }
}

/// The form object built from cloned resources and content bytes: an
/// external-graphic stream with the fixed bounding box.
pub open spec fn form_view(resources: ObjectV, content: Seq<u8>) -> ObjectV {
    ObjectV::Stream(
        seq![
            EntryV { key: type_key(), val: ObjectV::Name(xobject_name()) },
            EntryV { key: subtype_key(), val: ObjectV::Name(form_name()) },
            EntryV { key: bbox_key(), val: bbox_value() },
            EntryV { key: resources_key(), val: resources },
        ],
        content,
    )
}

/// The content stream object of an output page.
pub open spec fn content_stream_view(overlay: bool) -> ObjectV {
    ObjectV::Stream(Seq::empty(), content_ops(overlay))
}

/// The resource dictionary of an output page: the form under `Fm0`.
pub open spec fn page_resources_view(form_id: ObjectId) -> ObjectV {
    ObjectV::Dictionary(
        seq![
            EntryV {
                key: xobject_name(),
                val: ObjectV::Dictionary(
                    seq![EntryV { key: form_resource_name(), val: ObjectV::Reference(form_id) }],
                ),
            },
        ],
    )
}

/// An output page object: fixed size, with its content stream and
/// resource dictionary held by reference.
pub open spec fn page_view(cid: ObjectId, rid: ObjectId) -> ObjectV {
    ObjectV::Dictionary(
        seq![
            EntryV { key: type_key(), val: ObjectV::Name(page_name()) },
            EntryV { key: mediabox_key(), val: bbox_value() },
            EntryV { key: resources_key(), val: ObjectV::Reference(rid) },
            EntryV { key: contents_key(), val: ObjectV::Reference(cid) },
        ],
    )
}

/// Renaming an empty dictionary changes nothing.
pub proof fn lemma_rename_empty_dict(m: Map<ObjectId, ObjectId>)
    ensures
        rename(m, ObjectV::Dictionary(Seq::empty())) == ObjectV::Dictionary(Seq::empty()),
{
    assert(rename_entries(m, Seq::empty()) =~= Seq::<EntryV>::empty());
}

/// An object without references is resolvable in any source.
pub proof fn lemma_refless_resolvable(srcv: Map<ObjectId, ObjectV>, o: ObjectV)
    requires
        obj_refs(o) =~= Set::<ObjectId>::empty(),
    ensures
        refs_resolvable(srcv, o),
{
    let s = Set::<ObjectId>::empty();
    assert(crate::cloner::closed_set(srcv, s) && obj_refs(o).subset_of(s));
}

/// A page whose resource dictionary is absent has the empty resource
/// set, which is resolvable in any source: importing such a page cannot
/// fail on its resources.
pub proof fn lemma_missing_resources_empty(src: Document, page: ObjectV)
    requires
        page matches ObjectV::Dictionary(es) ==> dict_lookup(es, resources_key()) is None,
    ensures
        page_resources_of(page) == ObjectV::Dictionary(Seq::<EntryV>::empty()),
        refs_resolvable(src.table(), page_resources_of(page)),
{
    assert(obj_refs(page_resources_of(page)) =~= Set::<ObjectId>::empty()) by {
        assert(crate::object::refs_entries(Seq::<EntryV>::empty()) =~= Set::<ObjectId>::empty());
    }
    lemma_refless_resolvable(src.table(), page_resources_of(page));
}

/// Imports the source page registered under `page_number` as a form in
/// the destination document.
///
/// Fails with `PageNotFound` exactly when the page number is absent from
/// the source's page index, and then changes nothing at all.  Fails with
/// `DanglingReference` exactly when the page's object graph is broken:
/// the page object itself, the target of its `Contents` reference, or
/// something its resource dictionary transitively references is missing
/// from the source table.  Otherwise it succeeds, and the new form holds
/// the page's content bytes and its resources cloned into the
/// destination identity space — an absent resource dictionary becomes an
/// empty one.
pub fn import_page_as_form(
    dst: &mut Document,
    src: &Document,
    page_number: u32,
    map: &mut IdentityMap,
) -> (r: Result<ObjectId, ImportError>)
    requires
        src.wf(),
        old(dst).wf(),
        old(map).wf(),
        clone_state_ok(
            src.table(),
            old(dst).table(),
            old(dst).max_id as int,
            old(map)@,
            Set::empty(),
        ),
        old(dst).max_id + unmapped(src.table(), old(map)@) + 1 <= u32::MAX,
    ensures
        final(dst).wf(),
        final(map).wf(),
        old(dst).table().submap_of(final(dst).table()),
        final(dst).pages == old(dst).pages,
        final(dst).version == old(dst).version,
        old(dst).max_id <= final(dst).max_id,
        final(dst).max_id + unmapped(src.table(), final(map)@) <= old(dst).max_id + unmapped(
            src.table(),
            old(map)@,
        ) + 1,
        (r == Err::<ObjectId, ImportError>(ImportError::PageNotFound)) <==> !page_exists(
            *src,
            page_number,
        ),
        !page_exists(*src, page_number) ==> *final(dst) == *old(dst) && *final(map) == *old(map),
        match r {
            Ok(fid) => {
                &&& clone_state_ok(
                    src.table(),
                    final(dst).table(),
                    final(dst).max_id as int,
                    final(map)@,
                    Set::empty(),
                )
                &&& page_exists(*src, page_number)
                &&& page_obj_present(*src, page_number)
                &&& page_content_ok(src.table(), spec_page_obj(*src, page_number))
                &&& refs_resolvable(
                    src.table(),
                    page_resources_of(spec_page_obj(*src, page_number)),
                )
                &&& fid.num == final(dst).max_id
                &&& !old(dst).table().dom().contains(fid)
                &&& final(dst).table().dom().contains(fid)
                &&& final(dst).table()[fid] == form_view(
                    rename(
                        final(map)@,
                        page_resources_of(spec_page_obj(*src, page_number)),
                    ),
                    page_content_of(src.table(), spec_page_obj(*src, page_number)),
                )
            },
            Err(e) => {
                e == ImportError::DanglingReference ==> page_exists(*src, page_number) && !(
                page_obj_present(*src, page_number) && page_content_ok(
                    src.table(),
                    spec_page_obj(*src, page_number),
                ) && refs_resolvable(
                    src.table(),
                    page_resources_of(spec_page_obj(*src, page_number)),
                ))
            },
        },
{
    let pid = match src.get_page(page_number) {
        Some(p) => p,
        None => {
            return Err(ImportError::PageNotFound);
        },
    };
    let page_obj = match src.get(pid) {
        Some(o) => o,
        None => {
            return Err(ImportError::DanglingReference);
        },
    };
    let ghost pagev = spec_page_obj(*src, page_number);
    proof {
        assert(pagev == page_obj@);
    }
    let mut content: Vec<u8> = Vec::new();
    let mut resources_src: Option<&Object> = None;
    match page_obj {
        Object::Dictionary(es) => {
            proof {
                reveal_strlit("Contents");
                reveal_strlit("Resources");
                lemma_entries_view(es@);
            }
            let ckey = key_bytes("Contents");
            match dict_find(es, &ckey) {
                Some(Object::Stream(_, bytes)) => {
                    content = copy_bytes(bytes);
                },
                Some(Object::Reference(r)) => {
                    match src.get(*r) {
                        Some(Object::Stream(_, bytes)) => {
                            content = copy_bytes(bytes);
                        },
                        Some(_) => {},
                        None => {
                            return Err(ImportError::DanglingReference);
                        },
                    }
                },
                _ => {},
            }
            let rkey = key_bytes("Resources");
            resources_src = dict_find(es, &rkey);
        },
        _ => {},
    }
    proof {
        assert(content@ == page_content_of(src.table(), pagev));
        assert(page_content_ok(src.table(), pagev));
        match resources_src {
            Some(robj) => {
                assert(robj@ == page_resources_of(pagev));
            },
            None => {
                assert(page_resources_of(pagev) == ObjectV::Dictionary(Seq::<EntryV>::empty()));
            },
        }
    }
    let cloned_resources: Object = match resources_src {
        Some(robj) => {
            match clone_value(src, dst, robj, map) {
                Ok(o) => o,
                Err(e) => {
                    return Err(e);
                },
            }
        },
        None => {
            proof {
                lemma_missing_resources_empty(*src, pagev);
                lemma_rename_empty_dict(map@);
            }
            Object::Dictionary(Vec::new())
        },
    };
    proof {
        assert(entries_view(Seq::<DictEntry>::empty()) =~= Seq::<EntryV>::empty());
        assert(cloned_resources@ == rename(map@, page_resources_of(pagev)));
    }
    proof {
        reveal_strlit("Type");
        reveal_strlit("Subtype");
        reveal_strlit("XObject");
        reveal_strlit("Form");
        reveal_strlit("BBox");
        reveal_strlit("Resources");
    }
    let mut bbox: Vec<Object> = Vec::new();
    bbox.push(Object::Integer(0));
    bbox.push(Object::Integer(0));
    bbox.push(Object::Integer(PAGE_WIDTH));
    bbox.push(Object::Integer(PAGE_HEIGHT));
    let bbox_obj = Object::Array(bbox);
    proof {
        crate::object::lemma_view_els(bbox_obj->Array_0@);
        assert(crate::object::view_els(bbox_obj->Array_0@) =~= bbox_value()->Array_0);
    }
    let mut entries: Vec<DictEntry> = Vec::new();
    entries.push(DictEntry { key: key_bytes("Type"), value: Object::Name(key_bytes("XObject")) });
    entries.push(DictEntry { key: key_bytes("Subtype"), value: Object::Name(key_bytes("Form")) });
    entries.push(DictEntry { key: key_bytes("BBox"), value: bbox_obj });
    entries.push(
        DictEntry { key: key_bytes("Resources"), value: cloned_resources },
    );
    let form = Object::Stream(entries, content);
    proof {
        lemma_entries_view(form->Stream_0@);
        assert(entries_view(form->Stream_0@) =~= form_view(
            rename(map@, page_resources_of(pagev)),
            content@,
        )->Stream_0);
    }
    let ghost dst1 = *dst;
    let fid = dst.add_object(form);
    proof {
        assert forall|s: ObjectId|
            map@.dom().contains(s) && !Set::<ObjectId>::empty().contains(s) implies
            dst.table().dom().contains(#[trigger] map@[s]) && obj_refs(
            src.table()[s],
        ).subset_of(map@.dom()) && dst.table()[map@[s]] == rename(map@, src.table()[s]) by {
            assert(map@[s].num < fid.num);
        }
        assert(dst1.table().submap_of(dst.table())) by {
            assert forall|k: ObjectId| #[trigger] dst1.table().dom().contains(k) implies
                dst.table().dom().contains(k) && dst.table()[k] == dst1.table()[k] by {
                assert(k != fid);
            }
        }
        vstd::map_lib::lemma_submap_of_trans(old(dst).table(), dst1.table(), dst.table());
    }
    Ok(fid)
}

/// Builds a fresh output page around an imported form: a content stream
/// that saves graphics state, invokes the form under `Fm0`, and restores
/// state — with the overlay, additionally a filled marker rectangle —
/// plus a resource dictionary naming the form, and the page object
/// itself at the fixed page size.  Returns the page's identity; linking
/// it into a page index is the assembler's task.
pub fn build_output_page(dst: &mut Document, form_id: ObjectId, overlay: bool) -> (r: ObjectId)
    requires
        old(dst).wf(),
        old(dst).max_id + 3 <= u32::MAX,
    ensures
        final(dst).wf(),
        final(dst).max_id == old(dst).max_id + 3,
        final(dst).pages == old(dst).pages,
        final(dst).version == old(dst).version,
        r == (ObjectId { num: (old(dst).max_id + 3) as u32, gen: 0 }),
        !old(dst).table().dom().contains(r),
        final(dst).table() == old(dst).table().insert(
            ObjectId { num: (old(dst).max_id + 1) as u32, gen: 0 },
            content_stream_view(overlay),
        ).insert(
            ObjectId { num: (old(dst).max_id + 2) as u32, gen: 0 },
            page_resources_view(form_id),
        ).insert(
            ObjectId { num: (old(dst).max_id + 3) as u32, gen: 0 },
            page_view(
                ObjectId { num: (old(dst).max_id + 1) as u32, gen: 0 },
                ObjectId { num: (old(dst).max_id + 2) as u32, gen: 0 },
            ),
        ),
{
    proof {
        reveal_strlit("q\n/Fm0 Do\nQ\n");
        reveal_strlit("q\n1 0 0 rg\n153 198 306 396 re\nf\nQ\n");
    }
    let mut content = key_bytes("q\n/Fm0 Do\nQ\n");
    if overlay {
        let extra = key_bytes("q\n1 0 0 rg\n153 198 306 396 re\nf\nQ\n");
        append_bytes(&mut content, &extra);
    }
    let stream = Object::Stream(Vec::new(), content);
    proof {
        lemma_entries_view(stream->Stream_0@);
        assert(entries_view(stream->Stream_0@) =~= Seq::<EntryV>::empty());
    }
    let cid = dst.add_object(stream);
    proof {
        reveal_strlit("XObject");
        reveal_strlit("Fm0");
    }
    let mut inner: Vec<DictEntry> = Vec::new();
    inner.push(DictEntry { key: key_bytes("Fm0"), value: Object::Reference(form_id) });
    let mut res_entries: Vec<DictEntry> = Vec::new();
    res_entries.push(DictEntry { key: key_bytes("XObject"), value: Object::Dictionary(inner) });
    let resources = Object::Dictionary(res_entries);
    proof {
        lemma_entries_view(resources->Dictionary_0@);
        lemma_entries_view(resources->Dictionary_0@[0].value->Dictionary_0@);
        assert(entries_view(resources->Dictionary_0@[0].value->Dictionary_0@) =~= seq![
            EntryV { key: form_resource_name(), val: ObjectV::Reference(form_id) },
        ]);
        assert(entries_view(resources->Dictionary_0@) =~= page_resources_view(
            form_id,
        )->Dictionary_0);
    }
    let rid = dst.add_object(resources);
    proof {
        reveal_strlit("Type");
        reveal_strlit("Page");
        reveal_strlit("MediaBox");
        reveal_strlit("Resources");
        reveal_strlit("Contents");
    }
    let mut bbox: Vec<Object> = Vec::new();
    bbox.push(Object::Integer(0));
    bbox.push(Object::Integer(0));
    bbox.push(Object::Integer(PAGE_WIDTH));
    bbox.push(Object::Integer(PAGE_HEIGHT));
    let bbox_obj = Object::Array(bbox);
    proof {
        crate::object::lemma_view_els(bbox_obj->Array_0@);
        assert(crate::object::view_els(bbox_obj->Array_0@) =~= bbox_value()->Array_0);
    }
    let mut pes: Vec<DictEntry> = Vec::new();
    pes.push(DictEntry { key: key_bytes("Type"), value: Object::Name(key_bytes("Page")) });
    pes.push(DictEntry { key: key_bytes("MediaBox"), value: bbox_obj });
    pes.push(DictEntry { key: key_bytes("Resources"), value: Object::Reference(rid) });
    pes.push(DictEntry { key: key_bytes("Contents"), value: Object::Reference(cid) });
    let page = Object::Dictionary(pes);
    proof {
        lemma_entries_view(page->Dictionary_0@);
        assert(entries_view(page->Dictionary_0@) =~= page_view(cid, rid)->Dictionary_0);
    }
    let pid = dst.add_object(page);
    pid
}

} // verus!
