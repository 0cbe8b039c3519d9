//! The document assembler: folds the ordered specification strings into
//! selections, then builds the output document page by page, importing
//! each selected source page as a form and composing a fresh page around
//! it.
//!
//! Selections are processed in the order given; the order is not
//! required to be monotonic in page number, and duplicates each produce
//! an independent output page.  A selection whose source page is missing
//! or whose object graph is broken aborts the whole run.

use vstd::prelude::*;
use crate::{ImportError, SpecError};
use crate::cloner::{clone_state_ok, refs_resolvable, unmapped};
use crate::compose::{
    build_output_page, content_stream_view, import_page_as_form, page_content_of, page_content_ok,
    page_exists,
    page_obj_present, page_resources_of, page_resources_view, page_view, spec_page_obj,
};
use crate::document::{
    lemma_assoc_map_dom, lemma_table_ids_bounded, Document, IdentityMap,
};
use crate::object::{obj_refs, rename, ObjectId, ObjectV};
use crate::selection::{spec_parse_selection, zero_selection, Selection};

verus! {

broadcast use vstd::seq::group_seq_axioms, vstd::std_specs::vec::group_vec_axioms, vstd::set::group_set_axioms, vstd::map::group_map_axioms, vstd::string::group_string_axioms;

/// Whether the identity map is shared by the whole run, so that objects
/// shared between source pages are imported once, or reset for each
/// output page, isolating the pages at the cost of duplication.  The
/// assembler's default policy is a fresh map per page.
#[derive(Clone, Copy, Debug, PartialEq, Eq, Structural)]
pub enum CloneScope {
    PerPage,
    PerRun,
}

/// The views of the specification strings.
pub open spec fn string_views(specs: Seq<String>) -> Seq<Seq<char>> {
    specs.map_values(|s: String| s@)
}

/// The fold of the ordered specification strings: each parses against
/// the previous selection, the first against `prev`; the first failure
/// aborts the fold with its error.
pub open spec fn spec_parse_all(specs: Seq<Seq<char>>, prev: Selection) -> Result<
    Seq<Selection>,
    SpecError,
>
    decreases specs.len(),
{
    if specs.len() == 0 {
        Ok(Seq::empty())
    } else {
        match spec_parse_selection(specs[0], prev) {
            Ok(sel) => match spec_parse_all(specs.skip(1), sel) {
                Ok(rest) => Ok(seq![sel] + rest),
                Err(e) => Err(e),
            },
            Err(e) => Err(e),
        }
    }
}

/// Parses the ordered specification strings, threading each selection
/// forward as the source of inherited margins for the next, starting
/// from the all-zero default.
#[verifier::loop_isolation(false)]
pub fn parse_selections(specs: &Vec<String>) -> (r: Result<Vec<Selection>, SpecError>)
    ensures
        match r {
            Ok(sels) => spec_parse_all(string_views(specs@), zero_selection()) == Ok::<
                Seq<Selection>,
                SpecError,
            >(sels@),
            Err(e) => spec_parse_all(string_views(specs@), zero_selection()) == Err::<
                Seq<Selection>,
                SpecError,
            >(e),
        },
{
    let ghost sv = string_views(specs@);
    let mut out: Vec<Selection> = Vec::new();
    let mut prev = Selection { page_number: 0, left: 0, bottom: 0, right: 0, top: 0 };
    let mut i: usize = 0;
    proof {
        assert(sv.skip(0) =~= sv);
    }
    while i < specs.len()
        invariant
            sv == string_views(specs@),
            0 <= i <= specs@.len(),
            out@.len() == i,
            spec_parse_all(sv, zero_selection()) == (match spec_parse_all(sv.skip(i as int), prev) {
                Ok(rest) => Ok::<Seq<Selection>, SpecError>(out@ + rest),
                Err(e) => Err::<Seq<Selection>, SpecError>(e),
            }),
        decreases specs@.len() - i,
    {
        let sel = match Selection::new_or_default(specs[i].as_str(), &prev) {
            Ok(s) => s,
            Err(e) => {
                proof {
                    assert(sv.skip(i as int)[0] == sv[i as int]);
                    assert(sv[i as int] == specs@[i as int]@);
                    assert(spec_parse_all(sv.skip(i as int), prev) == Err::<
                        Seq<Selection>,
                        SpecError,
                    >(e));
                }
                return Err(e);
            },
        };
        proof {
            assert(sv.skip(i as int)[0] == sv[i as int]);
            assert(sv[i as int] == specs@[i as int]@);
            assert(sv.skip(i as int).skip(1) =~= sv.skip(i + 1));
            assert(spec_parse_all(sv.skip(i as int), prev) == (match spec_parse_all(
                sv.skip(i + 1),
                sel,
            ) {
                Ok(rest) => Ok::<Seq<Selection>, SpecError>(seq![sel] + rest),
                Err(e) => Err::<Seq<Selection>, SpecError>(e),
            }));
            assert(out@.push(sel) =~= out@ + seq![sel]);
            if spec_parse_all(sv.skip(i + 1), sel) is Ok {
                let rest = spec_parse_all(sv.skip(i + 1), sel)->Ok_0;
                assert((out@ + seq![sel]) + rest =~= out@ + (seq![sel] + rest));
            }
        }
        out.push(sel);
        prev = sel;
        i = i + 1;
    }
    proof {
        assert(sv.skip(specs@.len() as int) =~= Seq::<Seq<char>>::empty());
        assert(out@ + Seq::<Selection>::empty() =~= out@);
    }
    Ok(out)
}

/// The unmapped count never exceeds the source's object count.
proof fn lemma_unmapped_bound(src: Document, m: Map<ObjectId, ObjectId>)
    requires
        src.wf(),
    ensures
        unmapped(src.table(), m) <= src.objects@.len(),
        src.table().dom().finite(),
{
    lemma_assoc_map_dom(crate::document::table_entries(src.objects@));
    assert(src.table().dom().difference(m.dom()).subset_of(src.table().dom()));
    vstd::set_lib::lemma_len_subset(src.table().dom().difference(m.dom()), src.table().dom());
}

/// A selection can be imported when its source page is present and its
/// object graph is whole: the page object exists, its `Contents`
/// reference is not dangling, and its resources are resolvable.
pub open spec fn selection_importable(src: Document, sel: Selection) -> bool {
    &&& page_exists(src, sel.page_number)
    &&& page_obj_present(src, sel.page_number)
    &&& page_content_ok(src.table(), spec_page_obj(src, sel.page_number))
    &&& refs_resolvable(src.table(), page_resources_of(spec_page_obj(src, sel.page_number)))
}

/// An output page as the assembler leaves it: a page object holding a
/// content stream and a resource dictionary by reference, the resource
/// dictionary naming a form that the document also holds, whose payload
/// is the selected source page's content bytes.
pub open spec fn output_page_shape(
    doc: Document,
    pid: ObjectId,
    overlay: bool,
    content: Seq<u8>,
) -> bool {
    exists|cid: ObjectId, rid: ObjectId, fid: ObjectId|
        {
            &&& doc.table().dom().contains(pid)
            &&& doc.table()[pid] == #[trigger] page_view(cid, rid)
            &&& doc.table().dom().contains(cid)
            &&& doc.table()[cid] == content_stream_view(overlay)
            &&& doc.table().dom().contains(rid)
            &&& doc.table()[rid] == #[trigger] page_resources_view(fid)
            &&& doc.table().dom().contains(fid)
            &&& (doc.table()[fid] matches ObjectV::Stream(_, payload) && payload == content)
        }
}

/// The content bytes that the selection's source page carries.
pub open spec fn selected_content(src: Document, sel: Selection) -> Seq<u8> {
    page_content_of(src.table(), spec_page_obj(src, sel.page_number))
}

/// Builds the output document for the ordered selections against one
/// source document.
///
/// The destination starts empty at format version 1.5.  For each
/// selection, in order, the selected source page is imported as a form,
/// an output page is composed around it, and the page is registered
/// under the next output page number, starting at 1.  The run succeeds
/// exactly when every selection is importable; the first failure aborts
/// the whole run with its error, and no document is handed back.
///
/// The identity space is 32-bit, so the run as a whole must fit in it:
/// each page consumes at most the source's object count plus four fresh
/// identities.
#[verifier::loop_isolation(false)]
#[verifier::rlimit(100)]
pub fn assemble(
    src: &Document,
    selections: &Vec<Selection>,
    overlay: bool,
    scope: CloneScope,
) -> (r: Result<Document, ImportError>)
    requires
        src.wf(),
        selections@.len() * (src.objects@.len() + 4) + 4 <= u32::MAX,
    ensures
        match r {
            Ok(doc) => {
                &&& doc.wf()
                &&& doc.version@ == "1.5"@
                &&& doc.pages@.len() == selections@.len()
                &&& forall|j: int|
                    0 <= j < selections@.len() ==> (#[trigger] doc.pages@[j]).0 == j + 1
                &&& forall|j: int|
                    0 <= j < selections@.len() ==> output_page_shape(
                        doc,
                        (#[trigger] doc.pages@[j]).1,
                        overlay,
                        selected_content(*src, selections@[j]),
                    )
                &&& forall|j: int|
                    0 <= j < selections@.len() ==> selection_importable(
                        *src,
                        #[trigger] selections@[j],
                    )
            },
            Err(e) => {
                &&& exists|j: int|
                    0 <= j < selections@.len() && !selection_importable(
                        *src,
                        #[trigger] selections@[j],
                    )
                &&& (e == ImportError::PageNotFound ==> exists|j: int|
                    0 <= j < selections@.len() && !page_exists(
                        *src,
                        (#[trigger] selections@[j]).page_number,
                    ))
            },
        },
{
    let ghost n = src.objects@.len() as int;
    let mut dst = Document::with_version("1.5");
    let mut map = IdentityMap::new();
    let mut i: usize = 0;
    proof {
        crate::cloner::lemma_state_empty(src.table(), dst.table(), dst.max_id as int);
        lemma_unmapped_bound(*src, map@);
    }
    while i < selections.len()
        invariant
            dst.wf(),
            map.wf(),
            0 <= i <= selections@.len(),
            clone_state_ok(src.table(), dst.table(), dst.max_id as int, map@, Set::empty()),
            dst.max_id <= i * (n + 4),
            dst.version@ == "1.5"@,
            dst.pages@.len() == i,
            forall|j: int| 0 <= j < i ==> (#[trigger] dst.pages@[j]).0 == j + 1,
            forall|j: int|
                0 <= j < i ==> output_page_shape(
                    dst,
                    (#[trigger] dst.pages@[j]).1,
                    overlay,
                    selected_content(*src, selections@[j]),
                ),
            forall|j: int|
                0 <= j < i ==> selection_importable(*src, #[trigger] selections@[j]),
        decreases selections@.len() - i,
    {
        proof {
            lemma_unmapped_bound(*src, map@);
            assert(i * (n + 4) + (n + 4) == (i + 1) * (n + 4)) by (nonlinear_arith);
            assert((i + 1) * (n + 4) <= selections@.len() * (n + 4)) by (nonlinear_arith)
                requires
                    i + 1 <= selections@.len(),
                    n >= 0,
            ;
            assert(dst.max_id + unmapped(src.table(), map@) + 1 <= u32::MAX);
        }
        let sel = selections[i];
        let ghost dst_before = dst;
        let ghost map_before = map;
        let import_result = match scope {
            CloneScope::PerRun => import_page_as_form(&mut dst, src, sel.page_number, &mut map),
            CloneScope::PerPage => {
                let mut page_map = IdentityMap::new();
                proof {
                    crate::cloner::lemma_state_empty(src.table(), dst.table(), dst.max_id as int);
                    lemma_unmapped_bound(*src, page_map@);
                }
                let r = import_page_as_form(&mut dst, src, sel.page_number, &mut page_map);
                proof {
                    lemma_unmapped_bound(*src, page_map@);
                    // The run-level map is untouched; the invariant
                    // survives because the table only grew under fresh
                    // identities that are images of the page map.
                    assert(clone_state_ok(
                        src.table(),
                        dst.table(),
                        dst.max_id as int,
                        map@,
                        Set::empty(),
                    )) by {
                        assert forall|s: ObjectId|
                            map@.dom().contains(s) && !Set::<ObjectId>::empty().contains(
                                s,
                            ) implies dst.table().dom().contains(#[trigger] map@[s]) && obj_refs(
                            src.table()[s],
                        ).subset_of(map@.dom()) && dst.table()[map@[s]] == rename(
                            map@,
                            src.table()[s],
                        ) by {
                            assert(dst_before.table().dom().contains(map@[s]));
                            assert(dst.table().dom().contains(map@[s]) && dst.table()[map@[s]]
                                == dst_before.table()[map@[s]]);
                        }
                    }
                }
                r
            },
        };
        let fid = match import_result {
            Ok(f) => f,
            Err(_) => {
                proof {
                    assert(!selection_importable(*src, selections@[i as int]));
                }
                return Err(match import_result {
                    Err(e) => e,
                    Ok(_) => ImportError::PageNotFound,
                });
            },
        };
        proof {
            lemma_unmapped_bound(*src, map@);
            assert(dst.max_id + 3 <= u32::MAX);
            lemma_table_ids_bounded(dst_before);
        }
        let ghost dst_mid = dst;
        let pid = build_output_page(&mut dst, fid, overlay);
        let ghost cid = ObjectId { num: (dst_mid.max_id + 1) as u32, gen: 0 };
        let ghost rid = ObjectId { num: (dst_mid.max_id + 2) as u32, gen: 0 };
        proof {
            assert((i + 1) * 4 <= selections@.len() * (n + 4)) by (nonlinear_arith)
                requires
                    i + 1 <= selections@.len(),
                    n >= 0,
            ;
            assert(i + 1 <= u32::MAX);
            lemma_assoc_map_dom(dst.pages@);
            assert(!dst.page_table().dom().contains((i + 1) as u32)) by {
                if dst.page_table().dom().contains((i + 1) as u32) {
                    let j = choose|j: int|
                        0 <= j < dst.pages@.len() && (#[trigger] dst.pages@[j]).0 == (i + 1) as u32;
                    assert(dst.pages@[j].0 == j + 1);
                    assert(false);
                }
            }
        }
        let page_no: u32 = (i as u32) + 1;
        dst.set_page(page_no, pid);
        proof {
            assert(dst.pages@.drop_last() =~= dst_before.pages@);
            assert(forall|j: int| 0 <= j < i ==> dst.pages@[j] == dst_before.pages@[j]);
            // The new page has the expected shape; the form written by
            // the import survives the three fresh insertions.
            assert(output_page_shape(dst, pid, overlay, selected_content(*src, sel))) by {
                assert(dst.table()[pid] == page_view(cid, rid));
                assert(dst.table()[cid] == content_stream_view(overlay));
                assert(dst.table()[rid] == page_resources_view(fid));
                assert(fid.num <= dst_mid.max_id);
                assert(dst.table().dom().contains(fid));
                assert(dst.table()[fid] == dst_mid.table()[fid]);
            }
            // Earlier pages keep their shape: the table only gained
            // entries under fresh identities.
            lemma_table_ids_bounded(dst_mid);
            assert forall|j: int|
                0 <= j < i + 1 implies output_page_shape(
                dst,
                (#[trigger] dst.pages@[j]).1,
                overlay,
                selected_content(*src, selections@[j]),
            ) by {
                if j < i {
                    assert(dst.pages@[j] == dst_before.pages@[j]);
                    let (c2, r2, f2) = choose|c2: ObjectId, r2: ObjectId, f2: ObjectId|
                        {
                            &&& dst_before.table().dom().contains(dst_before.pages@[j].1)
                            &&& dst_before.table()[dst_before.pages@[j].1] == #[trigger] page_view(
                                c2,
                                r2,
                            )
                            &&& dst_before.table().dom().contains(c2)
                            &&& dst_before.table()[c2] == content_stream_view(overlay)
                            &&& dst_before.table().dom().contains(r2)
                            &&& dst_before.table()[r2] == #[trigger] page_resources_view(f2)
                            &&& dst_before.table().dom().contains(f2)
                            &&& (dst_before.table()[f2] matches ObjectV::Stream(_, payload)
                                && payload == selected_content(*src, selections@[j]))
                        };
                    assert(dst_before.table().submap_of(dst_mid.table()));
                    assert(dst_mid.table().submap_of(dst.table())) by {
                        assert forall|k: ObjectId|
                            #[trigger] dst_mid.table().dom().contains(k) implies
                            dst.table().dom().contains(k) && dst.table()[k]
                            == dst_mid.table()[k] by {
                            assert(k.num <= dst_mid.max_id);
                        }
                    }
                    vstd::map_lib::lemma_submap_of_trans(
                        dst_before.table(),
                        dst_mid.table(),
                        dst.table(),
                    );
                    let pj = dst_before.pages@[j].1;
                    assert(dst_before.table().dom().contains(pj));
                    assert(dst.table().dom().contains(pj));
                    assert(dst.table()[pj] == dst_before.table()[pj]);
                    assert(dst.table().dom().contains(c2));
                    assert(dst.table()[c2] == dst_before.table()[c2]);
                    assert(dst.table().dom().contains(r2));
                    assert(dst.table()[r2] == dst_before.table()[r2]);
                    assert(dst.table().dom().contains(f2));
                    assert(dst.table()[f2] == dst_before.table()[f2]);
                    assert(dst.table()[dst.pages@[j].1] == page_view(c2, r2));
                    assert(dst.table()[c2] == content_stream_view(overlay));
                    assert(dst.table()[r2] == page_resources_view(f2));
                    assert(dst.table()[f2] == dst_before.table()[f2]);
                }
            }
        }
        i = i + 1;
    }
    Ok(dst)
}

} // verus!
