//! The shape of a decoded file: every component begins with the `type`
//! record that opened it, and every page's own records begin with the
//! `type` record, of value `y`, that opened the page; and its records, read
//! page by page, own records before components', lie in file order.

use vstd::prelude::*;

use super::{
    add_record, decode_fold, decode_step, empty_page, is_page_container, lemma_scan_props,
    payload_of, spec_decode, spec_payload_start, spec_record, spec_records, spec_scan,
    start_record, AttrRecordModel, ComponentModel, DecodeState, PageModel, NAME_LEN,
};

verus! {

/// A component begins with the `type` record that opened it: its first
/// record is named `type`, is no page opener, and sits at the component's
/// offset.
pub open spec fn component_well_opened(c: ComponentModel) -> bool {
    &&& c.attrs.len() > 0
    &&& c.attrs[0].name == "type"@
    &&& !is_page_container(c.attrs[0])
    &&& c.attrs[0].file_offset == c.file_offset
}

/// A page's own records, if any, begin with the `type` record of value `y`
/// that opened it; all its components begin with their `type` record.
pub open spec fn page_well_opened(p: PageModel) -> bool {
    &&& (p.attrs.len() > 0 ==> p.attrs[0].name == "type"@ && is_page_container(p.attrs[0]))
    &&& forall|k: int| 0 <= k < p.components.len() ==> component_well_opened(#[trigger] p.components[k])
}

/// Every page of a decode state is well opened, and while records go to
/// a page's own list that page has been opened.
pub open spec fn state_well_opened(st: DecodeState) -> bool {
    &&& forall|i: int| 0 <= i < st.pages.len() ==> page_well_opened(#[trigger] st.pages[i])
    &&& st.in_container ==> st.pages.len() > 0 && st.pages.last().attrs.len() > 0
}

proof fn lemma_step_well_opened(st: DecodeState, r: AttrRecordModel)
    requires
        state_well_opened(st),
    ensures
        state_well_opened(decode_step(st, r)),
{
    reveal(start_record);
    reveal(add_record);
    let st1 = start_record(st, r);
    let st2 = add_record(st1, r);
    assert(decode_step(st, r) == st2);
    if r.name == "type"@ {
        if is_page_container(r) {
            let n = st.pages.len();
            assert forall|i: int| 0 <= i < st2.pages.len() implies page_well_opened(
                #[trigger] st2.pages[i],
            ) by {
                if i < n {
                    assert(st2.pages[i] == st.pages[i]);
                } else {
                    assert(st2.pages[i].attrs =~= seq![r]);
                    assert(st2.pages[i].components.len() == 0);
                }
            }
        } else {
            let pages = if st.pages.len() == 0 {
                seq![super::empty_page()]
            } else {
                st.pages
            };
            let n = pages.len();
            assert forall|i: int| 0 <= i < st2.pages.len() implies page_well_opened(
                #[trigger] st2.pages[i],
            ) by {
                if i < n - 1 {
                    assert(st2.pages[i] == st.pages[i]);
                } else {
                    let last = pages.last();
                    let p2 = st2.pages[i];
                    assert(p2.attrs == last.attrs);
                    let m = last.components.len();
                    assert(p2.components.len() == m + 1);
                    assert forall|k: int| 0 <= k < p2.components.len() implies component_well_opened(
                        #[trigger] p2.components[k],
                    ) by {
                        if k < m {
                            assert(p2.components[k] == last.components[k]);
                            if st.pages.len() > 0 {
                                assert(page_well_opened(st.pages[n - 1]));
                            }
                        } else {
                            assert(p2.components[k].attrs =~= seq![r]);
                        }
                    }
                    if st.pages.len() > 0 {
                        assert(page_well_opened(st.pages[n - 1]));
                    }
                }
            }
        }
    } else {
        assert(st1 == st);
        if st.pages.len() > 0 {
            let n = st.pages.len();
            let page = st.pages.last();
            assert(page_well_opened(st.pages[n - 1]));
            assert forall|i: int| 0 <= i < st2.pages.len() implies page_well_opened(
                #[trigger] st2.pages[i],
            ) by {
                if i < n - 1 {
                    assert(st2.pages[i] == st.pages[i]);
                } else {
                    let p2 = st2.pages[i];
                    if st.in_container {
                        assert(p2.attrs[0] == page.attrs[0]);
                        assert(p2.components == page.components);
                    } else if page.components.len() > 0 {
                        assert(p2.attrs == page.attrs);
                        let m = page.components.len();
                        assert forall|k: int| 0 <= k < p2.components.len() implies component_well_opened(
                            #[trigger] p2.components[k],
                        ) by {
                            if k < m - 1 {
                                assert(p2.components[k] == page.components[k]);
                            } else {
                                assert(component_well_opened(page.components[m - 1]));
                                assert(p2.components[k].attrs[0] == page.components[m - 1].attrs[0]);
                            }
                        }
                    } else {
                        assert(p2 == page);
                    }
                }
            }
        }
    }
}

proof fn lemma_fold_well_opened(recs: Seq<AttrRecordModel>)
    ensures
        state_well_opened(decode_fold(recs)),
    decreases recs.len(),
{
    if recs.len() > 0 {
        lemma_fold_well_opened(recs.drop_last());
        lemma_step_well_opened(decode_fold(recs.drop_last()), recs.last());
    }
}

/// Every component of a decoded file begins with the `type` record that
/// opened it (at the component's offset, and no page opener), and every
/// page's own records, if any, begin with the `type` record of value `y`
/// that opened it.
pub proof fn lemma_decoded_well_opened(data: Seq<u8>)
    ensures
        spec_decode(data) matches Some(d) ==> forall|i: int|
            0 <= i < d.pages.len() ==> page_well_opened(#[trigger] d.pages[i]),
{
    match super::spec_payload_start(data) {
        Some(s) => lemma_fold_well_opened(super::spec_records(data, s)),
        None => {},
    }
}

// ---------------------------------------------------------------------------
// Records in file order
// ---------------------------------------------------------------------------

/// The records of components, one component after another.
pub open spec fn flat_comps(cs: Seq<ComponentModel>) -> Seq<AttrRecordModel>
    decreases cs.len(),
{
    if cs.len() == 0 {
        Seq::empty()
    } else {
        flat_comps(cs.drop_last()) + cs.last().attrs
    }
}

/// A page's records: its own, then its components'.
pub open spec fn flat_page(p: PageModel) -> Seq<AttrRecordModel> {
    p.attrs + flat_comps(p.components)
}

/// The records of pages, one page after another.
pub open spec fn flat_pages(ps: Seq<PageModel>) -> Seq<AttrRecordModel>
    decreases ps.len(),
{
    if ps.len() == 0 {
        Seq::empty()
    } else {
        flat_pages(ps.drop_last()) + flat_page(ps.last())
    }
}

/// Records lie at or after `start`, each at least a name's length after the
/// one before.
pub open spec fn offsets_ascend(x: Seq<AttrRecordModel>, start: int) -> bool {
    &&& forall|i: int| 0 <= i < x.len() ==> start <= #[trigger] x[i].file_offset
    &&& forall|i: int|
        0 <= i < x.len() - 1 ==> #[trigger] x[i].file_offset + NAME_LEN <= x[i + 1].file_offset
}

/// While records go to a page's own list, that page has no components yet.
pub open spec fn container_last(st: DecodeState) -> bool {
    st.in_container ==> st.pages.len() > 0 && st.pages.last().components.len() == 0
}

proof fn lemma_flat_pages_update_last(ps: Seq<PageModel>, p: PageModel)
    requires
        ps.len() > 0,
    ensures
        flat_pages(ps.update(ps.len() - 1, p)) == flat_pages(ps.drop_last()) + flat_page(p),
{
    assert(ps.update(ps.len() - 1, p).drop_last() =~= ps.drop_last());
}

proof fn lemma_flat_comps_update_last(cs: Seq<ComponentModel>, c: ComponentModel)
    requires
        cs.len() > 0,
    ensures
        flat_comps(cs.update(cs.len() - 1, c)) == flat_comps(cs.drop_last()) + c.attrs,
{
    assert(cs.update(cs.len() - 1, c).drop_last() =~= cs.drop_last());
}

proof fn lemma_flat_step(st: DecodeState, r: AttrRecordModel)
    requires
        container_last(st),
    ensures
        container_last(decode_step(st, r)),
        flat_pages(decode_step(st, r).pages) == flat_pages(st.pages) || flat_pages(
            decode_step(st, r).pages,
        ) == flat_pages(st.pages).push(r),
{
    reveal(start_record);
    reveal(add_record);
    let st1 = start_record(st, r);
    let e = Seq::<AttrRecordModel>::empty();
    // Opening a page or a component adds no record.
    if r.name == "type"@ {
        if is_page_container(r) {
            assert(st1.pages.drop_last() =~= st.pages);
            assert(flat_comps(empty_page().components) == e);
            assert(flat_page(empty_page()) =~= e);
            assert(flat_pages(st1.pages) =~= flat_pages(st.pages));
        } else {
            let pages = if st.pages.len() == 0 {
                seq![empty_page()]
            } else {
                st.pages
            };
            let last = pages.last();
            let c = ComponentModel { file_offset: r.file_offset, objname: None, attrs: Seq::empty() };
            let np = PageModel {
                objname: last.objname,
                attrs: last.attrs,
                components: last.components.push(c),
            };
            assert(last.components.push(c).drop_last() =~= last.components);
            assert(flat_comps(np.components) =~= flat_comps(last.components));
            lemma_flat_pages_update_last(pages, np);
            if st.pages.len() == 0 {
                assert(pages.drop_last() =~= Seq::<PageModel>::empty());
                assert(flat_comps(empty_page().components) == e);
                assert(flat_page(np) =~= e);
                assert(flat_pages(st1.pages) =~= flat_pages(st.pages));
            } else {
                assert(flat_pages(st1.pages) =~= flat_pages(st.pages));
            }
        }
    } else {
        assert(st1 == st);
    }
    assert(flat_pages(st1.pages) == flat_pages(st.pages));
    assert(container_last(st1));
    let st2 = add_record(st1, r);
    if st1.pages.len() > 0 {
        let page = st1.pages.last();
        if st1.in_container {
            let p2 = st2.pages.last();
            assert(st2.pages == st1.pages.update(st1.pages.len() - 1, p2));
            lemma_flat_pages_update_last(st1.pages, p2);
            assert(p2.components == page.components);
            assert(p2.attrs == page.attrs.push(r));
            assert(flat_page(p2) =~= flat_page(page).push(r));
            assert(flat_pages(st2.pages) =~= flat_pages(st1.pages).push(r));
        } else if page.components.len() > 0 {
            let p2 = st2.pages.last();
            assert(st2.pages == st1.pages.update(st1.pages.len() - 1, p2));
            lemma_flat_pages_update_last(st1.pages, p2);
            let c2 = p2.components.last();
            assert(p2.components == page.components.update(page.components.len() - 1, c2));
            lemma_flat_comps_update_last(page.components, c2);
            assert(c2.attrs == page.components.last().attrs.push(r));
            assert(flat_comps(p2.components) =~= flat_comps(page.components).push(r));
            assert(flat_page(p2) =~= flat_page(page).push(r));
            assert(flat_pages(st2.pages) =~= flat_pages(st1.pages).push(r));
        } else {
            assert(st2.pages =~= st1.pages);
        }
    }
}

/// The ordering kept while folding: records so far ascend from `start`, the
/// last of them at most at `bound`.
pub open spec fn ordered_upto(st: DecodeState, start: int, bound: int) -> bool {
    &&& container_last(st)
    &&& offsets_ascend(flat_pages(st.pages), start)
    &&& flat_pages(st.pages).len() > 0 ==> flat_pages(st.pages).last().file_offset <= bound
}

proof fn lemma_fold_ordered(recs: Seq<AttrRecordModel>, start: int)
    requires
        forall|k: int| 0 <= k < recs.len() ==> start <= #[trigger] recs[k].file_offset,
        forall|k: int|
            0 <= k < recs.len() - 1 ==> #[trigger] recs[k].file_offset + NAME_LEN
                <= recs[k + 1].file_offset,
    ensures
        ordered_upto(
            decode_fold(recs),
            start,
            if recs.len() == 0 {
                start - NAME_LEN
            } else {
                recs.last().file_offset as int
            },
        ),
    decreases recs.len(),
{
    if recs.len() > 0 {
        let init = recs.drop_last();
        assert forall|k: int| 0 <= k < init.len() implies start <= #[trigger] init[k].file_offset by {
            assert(init[k] == recs[k]);
        }
        assert forall|k: int| 0 <= k < init.len() - 1 implies #[trigger] init[k].file_offset
            + NAME_LEN <= init[k + 1].file_offset by {
            assert(init[k] == recs[k]);
            assert(init[k + 1] == recs[k + 1]);
        }
        lemma_fold_ordered(init, start);
        let st = decode_fold(init);
        let r = recs.last();
        assert(r == recs[recs.len() - 1]);
        if init.len() > 0 {
            assert(init.last() == recs[recs.len() - 2]);
        }
        lemma_flat_step(st, r);
        let f = flat_pages(st.pages);
        let f2 = flat_pages(decode_step(st, r).pages);
        if f2 == f.push(r) {
            assert forall|i: int| 0 <= i < f2.len() - 1 implies #[trigger] f2[i].file_offset
                + NAME_LEN <= f2[i + 1].file_offset by {
                if i < f.len() - 1 {
                    assert(f2[i] == f[i]);
                    assert(f2[i + 1] == f[i + 1]);
                } else {
                    assert(f2[i] == f.last());
                    assert(f2[i + 1] == r);
                }
            }
            assert forall|i: int| 0 <= i < f2.len() implies start <= #[trigger] f2[i].file_offset by {
                if i < f.len() {
                    assert(f2[i] == f[i]);
                }
            }
        }
    }
}

/// Read page by page, a page's own records before its components', the
/// records of a decoded file lie at or after the payload start, each at
/// least a name's length after the one before.
pub proof fn lemma_decoded_offsets_ascend(data: Seq<u8>)
    requires
        data.len() <= usize::MAX,
    ensures
        spec_decode(data) matches Some(d) ==> offsets_ascend(flat_pages(d.pages), d.payload_start as int),
{
    match spec_payload_start(data) {
        Some(s) => {
            crate::hmi::readback::lemma_payload_start_bounds(data);
            let p = payload_of(data, s);
            let names = spec_scan(p);
            lemma_scan_props(p, 0);
            let recs = spec_records(data, s);
            reveal(spec_record);
            assert forall|k: int| 0 <= k < recs.len() implies #[trigger] recs[k].file_offset == s
                + names[k].0 by {
                assert(recs[k] == spec_record(p, names, s, k));
            }
            assert forall|k: int| 0 <= k < recs.len() - 1 implies #[trigger] recs[k].file_offset
                + NAME_LEN <= recs[k + 1].file_offset by {
                assert(recs[k + 1].file_offset == s + names[k + 1].0);
                assert(names[k].0 + NAME_LEN <= names[k + 1].0);
            }
            lemma_fold_ordered(recs, s);
        },
        None => {},
    }
}

} // verus!
