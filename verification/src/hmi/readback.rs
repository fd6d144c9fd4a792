//! What decoding a patched file gives back: the same pages, components and
//! records, with the patched record holding the value written.

use vstd::prelude::*;

use super::{
    add_record, ascii_value, decode_fold, empty_page, find_attr_from, find_in_components,
    find_in_page, find_in_pages, first_payload_block_from, int_value, is_page_container,
    is_payload_block, le_bytes, le_value, lemma_le_bytes_len, lemma_scan_props, nblocks, objname_of,
    patch_in_bounds, patch_outcome, payload_of, pow256, spec_decode, spec_decode_tail,
    spec_find_attr_record, spec_parse_int_literal, spec_payload_start, spec_record, spec_records,
    spec_scan, splice, allowed_run, is_allowed, lemma_allowed_run, scan_from, spec_name_at,
    start_record, AttrRecordModel, AttrValueModel, ComponentModel, DecodeState, DecodedModel,
    PageModel, SelectorModel, BLOCK_SIZE, NAME_LEN,
};
use crate::error::HmiError;
use crate::strings::{all_ascii, ascii_chars, parse_digits_from, spec_parse_uint};
use crate::target::trim;
use vstd::utf8::{encode_utf8, is_ascii_chars, is_ascii_chars_encode_utf8};

verus! {

/// `r` with its value replaced by `v`.
pub open spec fn with_value(r: AttrRecordModel, v: AttrValueModel) -> AttrRecordModel {
    AttrRecordModel { file_offset: r.file_offset, name: r.name, value: v, value_len: r.value_len }
}

/// `r`, holding `v` instead if it is the record at file offset `fo`.
pub open spec fn set_at(r: AttrRecordModel, fo: usize, v: AttrValueModel) -> AttrRecordModel {
    if r.file_offset == fo {
        with_value(r, v)
    } else {
        r
    }
}

/// Records, with the one at `fo` holding `v`.
pub open spec fn set_in_attrs(a: Seq<AttrRecordModel>, fo: usize, v: AttrValueModel) -> Seq<
    AttrRecordModel,
> {
    a.map_values(|r: AttrRecordModel| set_at(r, fo, v))
}

/// A component, with its record at `fo` holding `v`.
pub open spec fn set_in_comp(c: ComponentModel, fo: usize, v: AttrValueModel) -> ComponentModel {
    ComponentModel { file_offset: c.file_offset, objname: c.objname, attrs: set_in_attrs(c.attrs, fo, v) }
}

/// A page, with its record at `fo` (its own or a component's) holding `v`.
pub open spec fn set_in_page(p: PageModel, fo: usize, v: AttrValueModel) -> PageModel {
    PageModel {
        objname: p.objname,
        attrs: set_in_attrs(p.attrs, fo, v),
        components: p.components.map_values(|c: ComponentModel| set_in_comp(c, fo, v)),
    }
}

/// Pages, with the record at `fo` holding `v`.
pub open spec fn set_in_pages(ps: Seq<PageModel>, fo: usize, v: AttrValueModel) -> Seq<PageModel> {
    ps.map_values(|p: PageModel| set_in_page(p, fo, v))
}

/// A decode state, with the record at `fo` holding `v`.
pub open spec fn set_in_state(st: DecodeState, fo: usize, v: AttrValueModel) -> DecodeState {
    DecodeState { pages: set_in_pages(st.pages, fo, v), in_container: st.in_container }
}

/// A decoded file, with the record at `fo` holding `v`.
pub open spec fn set_in_decoded(d: DecodedModel, fo: usize, v: AttrValueModel) -> DecodedModel {
    DecodedModel { payload_start: d.payload_start, pages: set_in_pages(d.pages, fo, v) }
}

/// Giving `r` the value `v` changes neither whether it opens a page (for a
/// `type` record) nor the name it gives its owner.
pub open spec fn keeps_structure(r: AttrRecordModel, v: AttrValueModel) -> bool {
    &&& (r.name == "type"@ ==> is_page_container(with_value(r, v)) == is_page_container(r))
    &&& objname_of(with_value(r, v)) == objname_of(r)
}

proof fn lemma_empty_page_unchanged(fo: usize, v: AttrValueModel)
    ensures
        set_in_page(empty_page(), fo, v) == empty_page(),
{
    assert(set_in_page(empty_page(), fo, v).attrs =~= Seq::<AttrRecordModel>::empty());
    assert(set_in_page(empty_page(), fo, v).components =~= Seq::<ComponentModel>::empty());
}

proof fn lemma_start_commutes(st: DecodeState, r: AttrRecordModel, fo: usize, v: AttrValueModel)
    requires
        r.file_offset == fo ==> keeps_structure(r, v),
    ensures
        start_record(set_in_state(st, fo, v), set_at(r, fo, v)) == set_in_state(
            start_record(st, r),
            fo,
            v,
        ),
{
    reveal(start_record);
    let r2 = set_at(r, fo, v);
    let ms = set_in_state(st, fo, v);
    if r.name == "type"@ {
        assert(is_page_container(r2) == is_page_container(r));
        lemma_empty_page_unchanged(fo, v);
        if is_page_container(r) {
            assert(set_in_pages(st.pages.push(empty_page()), fo, v) =~= ms.pages.push(empty_page()));
        } else {
            let pages = if st.pages.len() == 0 {
                seq![empty_page()]
            } else {
                st.pages
            };
            let mpages = if ms.pages.len() == 0 {
                seq![empty_page()]
            } else {
                ms.pages
            };
            assert(mpages =~= set_in_pages(pages, fo, v));
            let last = pages.last();
            let mlast = mpages.last();
            assert(mlast == set_in_page(last, fo, v));
            let c = ComponentModel { file_offset: r.file_offset, objname: None, attrs: Seq::empty() };
            assert(set_in_comp(c, fo, v).attrs =~= c.attrs);
            assert(set_in_comp(c, fo, v) == c);
            let np = PageModel {
                objname: last.objname,
                attrs: last.attrs,
                components: last.components.push(c),
            };
            let mnp = PageModel {
                objname: mlast.objname,
                attrs: mlast.attrs,
                components: mlast.components.push(c),
            };
            assert(set_in_page(np, fo, v).components =~= mnp.components);
            assert(set_in_page(np, fo, v) == mnp);
            assert(set_in_pages(pages.update(pages.len() - 1, np), fo, v) =~= mpages.update(
                mpages.len() - 1,
                mnp,
            ));
        }
    }
}

proof fn lemma_add_commutes(st: DecodeState, r: AttrRecordModel, fo: usize, v: AttrValueModel)
    requires
        r.file_offset == fo ==> keeps_structure(r, v),
    ensures
        add_record(set_in_state(st, fo, v), set_at(r, fo, v)) == set_in_state(
            add_record(st, r),
            fo,
            v,
        ),
{
    reveal(add_record);
    let r2 = set_at(r, fo, v);
    let ms = set_in_state(st, fo, v);
    assert(objname_of(r2) == objname_of(r));
    if st.pages.len() > 0 {
        let page = st.pages.last();
        let mpage = ms.pages.last();
        assert(mpage == set_in_page(page, fo, v));
        let on = objname_of(r);
        if st.in_container {
            let p2 = PageModel {
                objname: if on is Some {
                    on
                } else {
                    page.objname
                },
                attrs: page.attrs.push(r),
                components: page.components,
            };
            let mp2 = PageModel {
                objname: if on is Some {
                    on
                } else {
                    mpage.objname
                },
                attrs: mpage.attrs.push(r2),
                components: mpage.components,
            };
            assert(set_in_page(p2, fo, v).attrs =~= mp2.attrs);
            assert(set_in_page(p2, fo, v) == mp2);
            assert(set_in_pages(st.pages.update(st.pages.len() - 1, p2), fo, v) =~= ms.pages.update(
                ms.pages.len() - 1,
                mp2,
            ));
        } else if page.components.len() > 0 {
            let c = page.components.last();
            let mc = mpage.components.last();
            assert(mc == set_in_comp(c, fo, v));
            let c2 = ComponentModel {
                file_offset: c.file_offset,
                objname: if on is Some {
                    on
                } else {
                    c.objname
                },
                attrs: c.attrs.push(r),
            };
            let mc2 = ComponentModel {
                file_offset: mc.file_offset,
                objname: if on is Some {
                    on
                } else {
                    mc.objname
                },
                attrs: mc.attrs.push(r2),
            };
            assert(set_in_comp(c2, fo, v).attrs =~= mc2.attrs);
            assert(set_in_comp(c2, fo, v) == mc2);
            let p2 = PageModel {
                objname: page.objname,
                attrs: page.attrs,
                components: page.components.update(page.components.len() - 1, c2),
            };
            let mp2 = PageModel {
                objname: mpage.objname,
                attrs: mpage.attrs,
                components: mpage.components.update(mpage.components.len() - 1, mc2),
            };
            assert(set_in_page(p2, fo, v).components =~= mp2.components);
            assert(set_in_page(p2, fo, v) == mp2);
            assert(set_in_pages(st.pages.update(st.pages.len() - 1, p2), fo, v) =~= ms.pages.update(
                ms.pages.len() - 1,
                mp2,
            ));
        } else {
            assert(set_in_pages(st.pages.update(st.pages.len() - 1, page), fo, v) =~= ms.pages.update(
                ms.pages.len() - 1,
                mpage,
            ));
        }
    }
}

/// Decoding records of which the one at `fo` holds `v` gives the state
/// decoded from the records as they were, with that record holding `v`.
proof fn lemma_fold_commutes(recs: Seq<AttrRecordModel>, fo: usize, v: AttrValueModel)
    requires
        forall|k: int|
            0 <= k < recs.len() && (#[trigger] recs[k]).file_offset == fo ==> keeps_structure(
                recs[k],
                v,
            ),
    ensures
        decode_fold(set_in_attrs(recs, fo, v)) == set_in_state(decode_fold(recs), fo, v),
    decreases recs.len(),
{
    if recs.len() > 0 {
        let m = set_in_attrs(recs, fo, v);
        let init = recs.drop_last();
        assert(m.drop_last() =~= set_in_attrs(init, fo, v));
        assert forall|k: int|
            0 <= k < init.len() && (#[trigger] init[k]).file_offset == fo implies keeps_structure(
            init[k],
            v,
        ) by {
            assert(init[k] == recs[k]);
        }
        lemma_fold_commutes(init, fo, v);
        let st = decode_fold(init);
        let r = recs.last();
        assert(m.last() == set_at(r, fo, v));
        lemma_start_commutes(st, r, fo, v);
        lemma_add_commutes(start_record(st, r), r, fo, v);
        assert(decode_fold(m) == add_record(start_record(decode_fold(m.drop_last()), m.last()), m.last()));
    } else {
        assert(set_in_attrs(recs, fo, v) =~= recs);
        assert(set_in_pages(decode_fold(recs).pages, fo, v) =~= decode_fold(recs).pages);
    }
}

/// An optional record, holding `v` if it is the one at `fo`.
pub open spec fn opt_set(o: Option<AttrRecordModel>, fo: usize, v: AttrValueModel) -> Option<
    AttrRecordModel,
> {
    match o {
        Some(r) => Some(set_at(r, fo, v)),
        None => None,
    }
}

proof fn lemma_find_attr_set(a: Seq<AttrRecordModel>, name: Seq<char>, i: int, fo: usize, v: AttrValueModel)
    ensures
        find_attr_from(set_in_attrs(a, fo, v), name, i) == opt_set(find_attr_from(a, name, i), fo, v),
        find_attr_from(a, name, i) matches Some(r) ==> a.contains(r),
    decreases a.len() - i,
{
    if 0 <= i < a.len() {
        assert(set_in_attrs(a, fo, v)[i] == set_at(a[i], fo, v));
        if a[i].name != name {
            lemma_find_attr_set(a, name, i + 1, fo, v);
        }
    }
}

proof fn lemma_find_comps_set(cs: Seq<ComponentModel>, sel: SelectorModel, i: int, fo: usize, v: AttrValueModel)
    ensures
        find_in_components(cs.map_values(|c: ComponentModel| set_in_comp(c, fo, v)), sel, i)
            == opt_set(find_in_components(cs, sel, i), fo, v),
        find_in_components(cs, sel, i) matches Some(r) ==> exists|c: int|
            0 <= c < cs.len() && (#[trigger] cs[c]).attrs.contains(r),
    decreases cs.len() - i,
{
    let ms = cs.map_values(|c: ComponentModel| set_in_comp(c, fo, v));
    if 0 <= i < cs.len() {
        assert(ms[i] == set_in_comp(cs[i], fo, v));
        lemma_find_attr_set(cs[i].attrs, sel.attr, 0, fo, v);
        if !(cs[i].objname == sel.objname && find_attr_from(cs[i].attrs, sel.attr, 0) is Some) {
            lemma_find_comps_set(cs, sel, i + 1, fo, v);
        }
    }
}

proof fn lemma_find_page_set(p: PageModel, sel: SelectorModel, fo: usize, v: AttrValueModel)
    ensures
        find_in_page(set_in_page(p, fo, v), sel) == opt_set(find_in_page(p, sel), fo, v),
        find_in_page(p, sel) matches Some(r) ==> p.attrs.contains(r) || exists|c: int|
            0 <= c < p.components.len() && (#[trigger] p.components[c]).attrs.contains(r),
{
    lemma_find_attr_set(p.attrs, sel.attr, 0, fo, v);
    lemma_find_comps_set(p.components, sel, 0, fo, v);
}

proof fn lemma_find_pages_set(ps: Seq<PageModel>, sel: SelectorModel, i: int, fo: usize, v: AttrValueModel)
    ensures
        find_in_pages(set_in_pages(ps, fo, v), sel, i) == opt_set(find_in_pages(ps, sel, i), fo, v),
        find_in_pages(ps, sel, i) matches Some(r) ==> exists|k: int|
            0 <= k < ps.len() && in_page(#[trigger] ps[k], r),
    decreases ps.len() - i,
{
    if 0 <= i < ps.len() {
        assert(set_in_pages(ps, fo, v)[i] == set_in_page(ps[i], fo, v));
        lemma_find_page_set(ps[i], sel, fo, v);
        if !((sel.page matches Some(q) ==> ps[i].objname == Some(q)) && find_in_page(ps[i], sel) is Some) {
            lemma_find_pages_set(ps, sel, i + 1, fo, v);
        } else {
            assert(in_page(ps[i], find_in_page(ps[i], sel).unwrap()));
        }
    }
}

/// Whether `r` is one of the page's own records or of its components'.
pub open spec fn in_page(p: PageModel, r: AttrRecordModel) -> bool {
    p.attrs.contains(r) || exists|c: int|
        0 <= c < p.components.len() && (#[trigger] p.components[c]).attrs.contains(r)
}

/// Every record of a decode state is one of `recs`.
pub open spec fn drawn_from(st: DecodeState, recs: Seq<AttrRecordModel>) -> bool {
    forall|k: int, r: AttrRecordModel|
        0 <= k < st.pages.len() && #[trigger] in_page(st.pages[k], r) ==> recs.contains(r)
}

proof fn lemma_drawn_from_grows(st: DecodeState, recs: Seq<AttrRecordModel>)
    requires
        recs.len() > 0,
        drawn_from(st, recs.drop_last()),
    ensures
        drawn_from(st, recs),
{
    assert forall|k: int, r: AttrRecordModel|
        0 <= k < st.pages.len() && #[trigger] in_page(st.pages[k], r) implies recs.contains(r) by {
        let j = choose|j: int| 0 <= j < recs.drop_last().len() && recs.drop_last()[j] == r;
        assert(recs[j] == r);
    }
}

proof fn lemma_start_drawn(st: DecodeState, r: AttrRecordModel, recs: Seq<AttrRecordModel>)
    requires
        drawn_from(st, recs),
    ensures
        drawn_from(start_record(st, r), recs),
{
    reveal(start_record);
    let st2 = start_record(st, r);
    assert forall|k: int, x: AttrRecordModel|
        0 <= k < st2.pages.len() && #[trigger] in_page(st2.pages[k], x) implies recs.contains(x) by {
        if r.name == "type"@ {
            if is_page_container(r) {
                if k < st.pages.len() {
                    assert(st2.pages[k] == st.pages[k]);
                } else {
                    assert(st2.pages[k] == empty_page());
                }
            } else {
                let pages = if st.pages.len() == 0 {
                    seq![empty_page()]
                } else {
                    st.pages
                };
                if k < pages.len() - 1 {
                    assert(st2.pages[k] == pages[k]);
                    assert(st.pages[k] == pages[k]);
                } else {
                    let last = pages.last();
                    let c = ComponentModel { file_offset: r.file_offset, objname: None, attrs: Seq::empty() };
                    let comps = last.components.push(c);
                    assert(st2.pages[k].attrs == last.attrs);
                    assert(st2.pages[k].components == comps);
                    if st2.pages[k].attrs.contains(x) {
                        if st.pages.len() > 0 {
                            assert(in_page(st.pages[k], x));
                        }
                    } else {
                        let ci = choose|ci: int|
                            0 <= ci < comps.len() && (#[trigger] comps[ci]).attrs.contains(x);
                        if ci < last.components.len() {
                            assert(comps[ci] == last.components[ci]);
                            if st.pages.len() > 0 {
                                assert(in_page(st.pages[k], x));
                            }
                        } else {
                            assert(comps[ci] == c);
                        }
                    }
                }
            }
        }
    }
}

proof fn lemma_add_drawn(st: DecodeState, r: AttrRecordModel, recs: Seq<AttrRecordModel>)
    requires
        drawn_from(st, recs),
        recs.contains(r),
    ensures
        drawn_from(add_record(st, r), recs),
{
    reveal(add_record);
    let st2 = add_record(st, r);
    assert forall|k: int, x: AttrRecordModel|
        0 <= k < st2.pages.len() && #[trigger] in_page(st2.pages[k], x) implies recs.contains(x) by {
        if st.pages.len() > 0 && k == st.pages.len() - 1 && x != r {
            let page = st.pages.last();
            let p2 = st2.pages[k];
            if st.in_container {
                assert(p2.attrs == page.attrs.push(r));
                assert(p2.components == page.components);
                if p2.attrs.contains(x) {
                    let j = choose|j: int| 0 <= j < p2.attrs.len() && p2.attrs[j] == x;
                    assert(page.attrs[j] == x);
                }
                assert(in_page(page, x));
            } else if page.components.len() > 0 {
                let c = page.components.last();
                let ci = page.components.len() - 1;
                assert(p2.attrs == page.attrs);
                if !p2.attrs.contains(x) {
                    let cj = choose|cj: int|
                        0 <= cj < p2.components.len() && (#[trigger] p2.components[cj]).attrs.contains(x);
                    if cj == ci {
                        assert(p2.components[cj].attrs == c.attrs.push(r));
                        let j = choose|j: int|
                            0 <= j < p2.components[cj].attrs.len() && p2.components[cj].attrs[j] == x;
                        assert(c.attrs[j] == x);
                        assert(page.components[ci].attrs.contains(x));
                    } else {
                        assert(p2.components[cj] == page.components[cj]);
                    }
                }
                assert(in_page(page, x));
            } else {
                assert(p2 == page);
            }
        } else if st.pages.len() > 0 && k < st.pages.len() - 1 {
            assert(st2.pages[k] == st.pages[k]);
        }
    }
}

/// Every record of the state decoded from `recs` is one of `recs`.
proof fn lemma_fold_drawn(recs: Seq<AttrRecordModel>)
    ensures
        drawn_from(decode_fold(recs), recs),
    decreases recs.len(),
{
    if recs.len() > 0 {
        let init = recs.drop_last();
        lemma_fold_drawn(init);
        lemma_drawn_from_grows(decode_fold(init), recs);
        let r = recs.last();
        assert(recs[recs.len() - 1] == r);
        lemma_start_drawn(decode_fold(init), r, recs);
        lemma_add_drawn(start_record(decode_fold(init), r), r, recs);
    }
}

// ---------------------------------------------------------------------------
// Records before and after a write
// ---------------------------------------------------------------------------

/// The bytes after the name of the `i`th record, up to the next name.
pub open spec fn tail_of(p: Seq<u8>, names: Seq<(int, Seq<char>)>, i: int) -> Seq<u8> {
    let next = if i + 1 < names.len() {
        names[i + 1].0
    } else {
        p.len() as int
    };
    p.subrange(names[i].0 + NAME_LEN, next)
}

proof fn lemma_first_block_bounds(data: Seq<u8>, i: int)
    requires
        0 <= i,
    ensures
        first_payload_block_from(data, i) matches Some(j) ==> i <= j < nblocks(data.len() as int),
    decreases nblocks(data.len() as int) - i,
{
    if i < nblocks(data.len() as int) && !is_payload_block(data, i) {
        lemma_first_block_bounds(data, i + 1);
    }
}

/// Where a payload is found, it starts inside the file.
pub proof fn lemma_payload_start_bounds(data: Seq<u8>)
    ensures
        spec_payload_start(data) matches Some(s) ==> 0 <= s < data.len(),
{
    lemma_first_block_bounds(data, 2);
    match first_payload_block_from(data, 2) {
        Some(j) => {
            let len = data.len() as int;
            assert(j * BLOCK_SIZE < len) by (nonlinear_arith)
                requires
                    2 <= j < nblocks(len),
                    len >= 0,
            ;
        },
        None => {},
    }
}

proof fn lemma_names_sorted(p: Seq<u8>, j: int, k: int)
    requires
        0 <= j < k < spec_scan(p).len(),
    ensures
        spec_scan(p)[j].0 + NAME_LEN <= spec_scan(p)[k].0,
    decreases k - j,
{
    lemma_scan_props(p, 0);
    assert(spec_scan(p)[j].0 + NAME_LEN <= spec_scan(p)[j + 1].0);
    if j + 1 < k {
        lemma_names_sorted(p, j + 1, k);
    }
}

/// A write into the value of record `t` leaves every other record as it
/// was, and gives record `t` the value its new tail decodes to.
proof fn lemma_record_k(
    p0: Seq<u8>,
    p1: Seq<u8>,
    s: int,
    t: int,
    k: int,
    nb: Seq<u8>,
    w: AttrValueModel,
)
    requires
        0 <= s,
        s + p0.len() <= usize::MAX,
        0 <= t < spec_scan(p0).len(),
        0 <= k < spec_scan(p0).len(),
        p1 == splice(p0, spec_scan(p0)[t].0 + NAME_LEN, nb),
        nb.len() + 4 <= tail_of(p0, spec_scan(p0), t).len(),
        spec_decode_tail(
            nb + tail_of(p0, spec_scan(p0), t).subrange(
                nb.len() as int,
                tail_of(p0, spec_scan(p0), t).len() as int,
            ),
            spec_scan(p0)[t].1,
        ) == (w, spec_decode_tail(tail_of(p0, spec_scan(p0), t), spec_scan(p0)[t].1).1),
    ensures
        spec_record(p1, spec_scan(p0), s, k) == set_at(
            spec_record(p0, spec_scan(p0), s, k),
            (s + spec_scan(p0)[t].0) as usize,
            w,
        ),
        k != t ==> spec_record(p0, spec_scan(p0), s, k).file_offset != (s + spec_scan(p0)[t].0) as usize,
        spec_record(p0, spec_scan(p0), s, k).file_offset == (s + spec_scan(p0)[k].0) as usize,
{
    reveal(spec_record);
    let names = spec_scan(p0);
    lemma_scan_props(p0, 0);
    let o = names[t].0 + NAME_LEN;
    let tail0 = tail_of(p0, names, t);
    assert(p1.len() == p0.len());
    if k == t {
        assert(tail_of(p1, names, t) =~= nb + tail0.subrange(nb.len() as int, tail0.len() as int));
    } else {
        if k < t {
            if k + 1 < t {
                lemma_names_sorted(p0, k + 1, t);
            }
            assert(names[k].0 + NAME_LEN <= names[k + 1].0);
        } else {
            if t + 1 < k {
                lemma_names_sorted(p0, t + 1, k);
            }
            assert(names[t].0 + NAME_LEN <= names[t + 1].0);
        }
        assert(tail_of(p1, names, k) =~= tail_of(p0, names, k));
    }
}

/// The records of a file after a write into the value of record `t`.
proof fn lemma_records_patched(d0: Seq<u8>, d1: Seq<u8>, s: int, t: int, nb: Seq<u8>, w: AttrValueModel)
    requires
        0 <= s < d0.len(),
        d0.len() <= usize::MAX,
        spec_scan(payload_of(d1, s)) == spec_scan(payload_of(d0, s)),
        0 <= t < spec_scan(payload_of(d0, s)).len(),
        d1 == splice(d0, s + spec_scan(payload_of(d0, s))[t].0 + NAME_LEN, nb),
        nb.len() + 4 <= tail_of(payload_of(d0, s), spec_scan(payload_of(d0, s)), t).len(),
        spec_decode_tail(
            nb + tail_of(payload_of(d0, s), spec_scan(payload_of(d0, s)), t).subrange(
                nb.len() as int,
                tail_of(payload_of(d0, s), spec_scan(payload_of(d0, s)), t).len() as int,
            ),
            spec_scan(payload_of(d0, s))[t].1,
        ) == (w, spec_decode_tail(
            tail_of(payload_of(d0, s), spec_scan(payload_of(d0, s)), t),
            spec_scan(payload_of(d0, s))[t].1,
        ).1),
    ensures
        spec_records(d1, s) == set_in_attrs(
            spec_records(d0, s),
            (s + spec_scan(payload_of(d0, s))[t].0) as usize,
            w,
        ),
        forall|k: int|
            0 <= k < spec_records(d0, s).len() && k != t ==> (#[trigger] spec_records(d0, s)[k]).file_offset
                != (s + spec_scan(payload_of(d0, s))[t].0) as usize,
{
    let p0 = payload_of(d0, s);
    let p1 = payload_of(d1, s);
    let names = spec_scan(p0);
    lemma_scan_props(p0, 0);
    let o = names[t].0 + NAME_LEN;
    assert(p1 =~= splice(p0, o, nb));
    let fo = (s + names[t].0) as usize;
    let r0 = spec_records(d0, s);
    let r1 = spec_records(d1, s);
    assert forall|k: int| 0 <= k < r0.len() implies #[trigger] r1[k] == set_at(r0[k], fo, w) && (k != t
        ==> r0[k].file_offset != fo) by {
        lemma_record_k(p0, p1, s, t, k, nb, w);
    }
    assert(r1 =~= set_in_attrs(r0, fo, w));
    assert forall|k: int| 0 <= k < r0.len() && k != t implies (#[trigger] r0[k]).file_offset != fo by {
        lemma_record_k(p0, p1, s, t, k, nb, w);
    }
}

// ---------------------------------------------------------------------------
// Decoding a rewritten value
// ---------------------------------------------------------------------------

/// A tail that decodes to a string, with its value bytes replaced by as
/// many new bytes, decodes to those bytes read as ASCII.
proof fn lemma_str_tail(tail: Seq<u8>, name: Seq<char>, nb: Seq<u8>)
    requires
        spec_decode_tail(tail, name).0 matches AttrValueModel::Str(old) && nb.len() == encode_utf8(
            old,
        ).len(),
    ensures
        nb.len() + 4 == tail.len(),
        spec_decode_tail(nb + tail.subrange(nb.len() as int, tail.len() as int), name) == (
            ascii_value(nb),
            spec_decode_tail(tail, name).1,
        ),
{
    let n = tail.len();
    let val = tail.subrange(0, n - 4);
    let old = ascii_chars(val);
    assert(all_ascii(val));
    assert(is_ascii_chars(old)) by {
        assert forall|i: int| 0 <= i < old.len() implies '\0' <= #[trigger] old[i] <= '\u{7f}' by {
            assert(val[i] < 0x80);
        }
    }
    is_ascii_chars_encode_utf8(old);
    let t2 = nb + tail.subrange(nb.len() as int, n as int);
    assert(t2.subrange(0, n - 4) =~= nb);
}

/// `v`, below `256^w`, written as `w` little-endian bytes reads back as `v`.
pub proof fn lemma_le_roundtrip(v: nat, w: nat)
    requires
        v < pow256(w),
    ensures
        le_value(le_bytes(v, w)) == v,
        le_bytes(v, w).len() == w,
    decreases w,
{
    if w > 0 {
        let pw = pow256((w - 1) as nat);
        assert(v / 256 < pw) by (nonlinear_arith)
            requires
                v < 256 * pw,
        ;
        lemma_le_roundtrip(v / 256, (w - 1) as nat);
        let b = le_bytes(v, w);
        assert(b.drop_first() =~= le_bytes(v / 256, (w - 1) as nat));
    }
}

/// The first `k` of the `w` little-endian bytes of `v` are its `k`
/// little-endian bytes.
proof fn lemma_le_bytes_prefix(v: nat, w: nat, k: nat)
    requires
        k <= w,
    ensures
        le_bytes(v, w).subrange(0, k as int) == le_bytes(v, k),
    decreases k,
{
    lemma_le_bytes_len(v, w);
    lemma_le_bytes_len(v, k);
    if k > 0 {
        lemma_le_bytes_prefix(v / 256, (w - 1) as nat, (k - 1) as nat);
        lemma_le_bytes_len(v / 256, (w - 1) as nat);
        assert(le_bytes(v, w).subrange(0, k as int) =~= seq![(v % 256) as u8] + le_bytes(
            v / 256,
            (w - 1) as nat,
        ).subrange(0, k - 1));
    }
}

/// An integer accepted for a record `w` bytes wide (below `256^w` when
/// `w < 8`, below `2^64` in any case), written as `w` little-endian bytes,
/// reads back as itself.
proof fn lemma_written_int(iv: nat, w: nat)
    requires
        iv <= 0xffff_ffff_ffff_ffff,
        w < 8 ==> iv < pow256(w),
    ensures
        le_bytes(iv, w).len() == w,
        int_value(le_bytes(iv, w)) == iv as u64,
{
    lemma_le_bytes_len(iv, w);
    let nb = le_bytes(iv, w);
    reveal_with_fuel(pow256, 9);
    assert(pow256(8) == 0x1_0000_0000_0000_0000nat);
    if w <= 8 {
        if w == 8 {
            assert(iv < pow256(8));
        }
        lemma_le_roundtrip(iv, w);
        assert(nb.subrange(0, w as int) =~= nb);
    } else {
        lemma_le_bytes_prefix(iv, w, 8);
        lemma_le_roundtrip(iv, 8);
    }
}

/// A tail that decodes to an integer, with its value bytes replaced by the
/// little-endian bytes of `iv` in the same width, decodes to `iv`.
proof fn lemma_int_tail(tail: Seq<u8>, name: Seq<char>, iv: nat)
    requires
        spec_decode_tail(tail, name).0 is Int,
        iv <= 0xffff_ffff_ffff_ffff,
        spec_decode_tail(tail, name).1 < 8 ==> iv < pow256(spec_decode_tail(tail, name).1),
    ensures
        spec_decode_tail(tail, name).1 + 4 == tail.len(),
        spec_decode_tail(
            le_bytes(iv, spec_decode_tail(tail, name).1) + tail.subrange(
                spec_decode_tail(tail, name).1 as int,
                tail.len() as int,
            ),
            name,
        ) == (AttrValueModel::Int(iv as u64), spec_decode_tail(tail, name).1),
{
    let n = tail.len();
    let w = spec_decode_tail(tail, name).1;
    lemma_written_int(iv, w);
    let nb = le_bytes(iv, w);
    let t2 = nb + tail.subrange(w as int, n as int);
    assert(t2.subrange(0, n - 4) =~= nb);
}

proof fn lemma_parse_digits_le(d: Seq<char>, i: int, acc: nat, radix: nat, max: nat)
    requires
        acc <= max,
    ensures
        parse_digits_from(d, i, acc, radix, max) matches Ok(v) ==> v <= max,
    decreases d.len() - i,
{
    if i < d.len() {
        let v = acc * radix + crate::strings::digit_value(d[i]);
        if crate::strings::digit_value(d[i]) < radix && v <= max {
            lemma_parse_digits_le(d, i + 1, v as nat, radix, max);
        }
    }
}

proof fn lemma_parse_uint_le(s: Seq<char>, radix: nat, max: nat)
    ensures
        spec_parse_uint(s, radix, max) matches Ok(v) ==> v <= max,
{
    lemma_parse_digits_le(s, 0, 0, radix, max);
    lemma_parse_digits_le(s, 1, 0, radix, max);
}

proof fn lemma_parse_int_literal_le(s: Seq<char>)
    ensures
        spec_parse_int_literal(s) matches Ok(v) ==> v <= 0xffff_ffff_ffff_ffff,
{
    let t = trim(s);
    let max = 0xffff_ffff_ffff_ffffnat;
    lemma_parse_uint_le(t, 10, max);
    if t.len() >= 2 {
        lemma_parse_uint_le(t.subrange(2, t.len() as int), 16, max);
        lemma_parse_uint_le(t.subrange(2, t.len() as int), 8, max);
        lemma_parse_uint_le(t.subrange(2, t.len() as int), 2, max);
    }
}

// ---------------------------------------------------------------------------
// Reading back a patch
// ---------------------------------------------------------------------------

/// The value a record holds once `patch_attr` wrote `new_chars` into it: an
/// integer record holds the integer read from the text; a string record
/// holds the text's bytes, read as ASCII.
pub open spec fn written_value(rec: AttrRecordModel, new_chars: Seq<char>) -> AttrValueModel {
    match rec.value {
        AttrValueModel::Int(_) => match spec_parse_int_literal(new_chars) {
            Ok(iv) => AttrValueModel::Int(iv as u64),
            Err(_) => rec.value,
        },
        _ => ascii_value(encode_utf8(new_chars)),
    }
}

/// Reading back a patch. Let `patch_attr` succeed in rewriting, with
/// `new_chars`, the record `rec` that `sel` selects in the decoding of `d0`,
/// giving `d1`. If the written bytes neither move the payload start nor
/// change where attribute names are found, and the new value neither turns
/// a `type` record into or out of a page opener nor renames an object, then
/// `d1` decodes to the same pages, components and records as `d0`, except
/// that `rec` now holds the value written, and `sel` selects it there. An
/// ASCII text written into a string record reads back as itself.
pub proof fn lemma_patch_reads_back(
    d0: Seq<u8>,
    d1: Seq<u8>,
    sel: SelectorModel,
    new_chars: Seq<char>,
    rec: AttrRecordModel,
)
    requires
        d0.len() <= usize::MAX,
        spec_decode(d0) is Some,
        spec_find_attr_record(spec_decode(d0).unwrap(), sel) == Some(rec),
        patch_in_bounds(d0.len(), rec, new_chars, encode_utf8(new_chars)),
        patch_outcome(d0, d1, rec, sel, new_chars, encode_utf8(new_chars), Ok(())),
        keeps_structure(rec, written_value(rec, new_chars)),
        spec_payload_start(d1) == spec_payload_start(d0),
        spec_scan(payload_of(d1, spec_payload_start(d0).unwrap())) == spec_scan(
            payload_of(d0, spec_payload_start(d0).unwrap()),
        ),
    ensures
        spec_decode(d1) == Some(
            set_in_decoded(spec_decode(d0).unwrap(), rec.file_offset, written_value(rec, new_chars)),
        ),
        spec_find_attr_record(spec_decode(d1).unwrap(), sel) == Some(
            with_value(rec, written_value(rec, new_chars)),
        ),
        rec.value is Str && is_ascii_chars(new_chars) ==> written_value(rec, new_chars)
            == AttrValueModel::Str(new_chars),
{
    let s = spec_payload_start(d0).unwrap();
    lemma_payload_start_bounds(d0);
    let dm = spec_decode(d0).unwrap();
    let recs0 = spec_records(d0, s);
    let w = written_value(rec, new_chars);
    let fo = rec.file_offset;
    let nbytes = encode_utf8(new_chars);
    // `rec` is one of the file's records.
    lemma_fold_drawn(recs0);
    lemma_find_pages_set(dm.pages, sel, 0, fo, w);
    let pk = choose|pk: int| 0 <= pk < dm.pages.len() && in_page(dm.pages[pk], rec);
    assert(recs0.contains(rec));
    let t = choose|t: int| 0 <= t < recs0.len() && recs0[t] == rec;
    let p0 = payload_of(d0, s);
    let names = spec_scan(p0);
    lemma_scan_props(p0, 0);
    reveal(spec_record);
    assert(recs0[t] == spec_record(p0, names, s, t));
    let tail = tail_of(p0, names, t);
    assert(fo == s + names[t].0);
    let name = names[t].1;
    assert(rec.name == name);
    assert(rec.value == spec_decode_tail(tail, name).0);
    // The new tail of `rec` decodes to `w`.
    let nb = match rec.value {
        AttrValueModel::Str(old) => {
            lemma_str_tail(tail, name, nbytes);
            nbytes
        },
        AttrValueModel::Int(_) => {
            let wd = rec.value_len as nat;
            let iv = spec_parse_int_literal(new_chars)->Ok_0;
            lemma_parse_int_literal_le(new_chars);
            lemma_int_tail(tail, name, iv);
            le_bytes(iv, wd)
        },
        _ => {
            assert(false);
            nbytes
        },
    };
    lemma_records_patched(d0, d1, s, t, nb, w);
    assert forall|k: int| 0 <= k < recs0.len() && (#[trigger] recs0[k]).file_offset == fo implies keeps_structure(
        recs0[k],
        w,
    ) by {
        assert(k == t);
    }
    lemma_fold_commutes(recs0, fo, w);
    if rec.value is Str && is_ascii_chars(new_chars) {
        is_ascii_chars_encode_utf8(new_chars);
        assert(all_ascii(nbytes));
        assert(ascii_chars(nbytes) =~= new_chars);
    }
}

/// The bytes `patch_attr` writes over a record's value: the new text's
/// UTF-8 bytes for a string record, the integer's little-endian bytes in the
/// record's width for an integer record.
pub open spec fn written_bytes(rec: AttrRecordModel, new_chars: Seq<char>) -> Seq<u8> {
    match rec.value {
        AttrValueModel::Int(_) => le_bytes(
            spec_parse_int_literal(new_chars)->Ok_0,
            rec.value_len as nat,
        ),
        _ => encode_utf8(new_chars),
    }
}

/// The record a selector picks from a decoded file is one of the file's
/// records: its value and width are its tail decoded, and its value lies
/// inside the file right after its name.
proof fn lemma_selected_record(d0: Seq<u8>, sel: SelectorModel, rec: AttrRecordModel) -> (t: int)
    requires
        d0.len() <= usize::MAX,
        spec_decode(d0) is Some,
        spec_find_attr_record(spec_decode(d0).unwrap(), sel) == Some(rec),
    ensures
        0 <= spec_payload_start(d0).unwrap() < d0.len(),
        0 <= t < spec_scan(payload_of(d0, spec_payload_start(d0).unwrap())).len(),
        rec.file_offset == spec_payload_start(d0).unwrap() + spec_scan(
            payload_of(d0, spec_payload_start(d0).unwrap()),
        )[t].0,
        rec.name == spec_scan(payload_of(d0, spec_payload_start(d0).unwrap()))[t].1,
        rec.value == spec_decode_tail(
            tail_of(
                payload_of(d0, spec_payload_start(d0).unwrap()),
                spec_scan(payload_of(d0, spec_payload_start(d0).unwrap())),
                t,
            ),
            rec.name,
        ).0,
        rec.value_len == spec_decode_tail(
            tail_of(
                payload_of(d0, spec_payload_start(d0).unwrap()),
                spec_scan(payload_of(d0, spec_payload_start(d0).unwrap())),
                t,
            ),
            rec.name,
        ).1,
        rec.file_offset + NAME_LEN + tail_of(
            payload_of(d0, spec_payload_start(d0).unwrap()),
            spec_scan(payload_of(d0, spec_payload_start(d0).unwrap())),
            t,
        ).len() <= d0.len(),
{
    let s = spec_payload_start(d0).unwrap();
    lemma_payload_start_bounds(d0);
    let dm = spec_decode(d0).unwrap();
    let recs0 = spec_records(d0, s);
    lemma_fold_drawn(recs0);
    lemma_find_pages_set(dm.pages, sel, 0, rec.file_offset, rec.value);
    let pk = choose|pk: int| 0 <= pk < dm.pages.len() && in_page(dm.pages[pk], rec);
    assert(recs0.contains(rec));
    let t = choose|t: int| 0 <= t < recs0.len() && recs0[t] == rec;
    let p0 = payload_of(d0, s);
    let names = spec_scan(p0);
    lemma_scan_props(p0, 0);
    reveal(spec_record);
    assert(recs0[t] == spec_record(p0, names, s, t));
    let tail = tail_of(p0, names, t);
    let dt = spec_decode_tail(tail, names[t].1);
    assert(dt.1 <= tail.len());
    t
}

/// A successful patch writes exactly the selected record's value: the file
/// afterwards is the file before with the `value_len` bytes after the
/// record's name replaced by the written bytes, and nothing else changed.
pub proof fn lemma_patch_writes_value_only(
    d0: Seq<u8>,
    d1: Seq<u8>,
    sel: SelectorModel,
    new_chars: Seq<char>,
    rec: AttrRecordModel,
)
    requires
        d0.len() <= usize::MAX,
        spec_decode(d0) is Some,
        spec_find_attr_record(spec_decode(d0).unwrap(), sel) == Some(rec),
        patch_in_bounds(d0.len(), rec, new_chars, encode_utf8(new_chars)),
        patch_outcome(d0, d1, rec, sel, new_chars, encode_utf8(new_chars), Ok(())),
    ensures
        written_bytes(rec, new_chars).len() == rec.value_len,
        rec.file_offset + NAME_LEN + rec.value_len <= d0.len(),
        d1 == splice(d0, rec.file_offset + NAME_LEN, written_bytes(rec, new_chars)),
        d1.len() == d0.len(),
        forall|i: int|
            0 <= i < d0.len() && !(rec.file_offset + NAME_LEN <= i < rec.file_offset + NAME_LEN
                + rec.value_len) ==> #[trigger] d1[i] == d0[i],
{
    let t = lemma_selected_record(d0, sel, rec);
    let s = spec_payload_start(d0).unwrap();
    let p0 = payload_of(d0, s);
    let tail = tail_of(p0, spec_scan(p0), t);
    let nb = written_bytes(rec, new_chars);
    match rec.value {
        AttrValueModel::Str(old) => {
            lemma_str_tail(tail, rec.name, encode_utf8(new_chars));
        },
        AttrValueModel::Int(_) => {
            lemma_le_bytes_len(spec_parse_int_literal(new_chars)->Ok_0, rec.value_len as nat);
        },
        _ => {},
    }
    assert(nb.len() == rec.value_len);
}

/// When `decoded` is the decoding of the file being patched, the write
/// `patch_attr` makes for the record a selector picks stays inside the file:
/// its in-bounds condition holds, whatever the new value.
pub proof fn lemma_decoded_patch_in_bounds(
    d0: Seq<u8>,
    sel: SelectorModel,
    new_chars: Seq<char>,
    rec: AttrRecordModel,
)
    requires
        d0.len() <= usize::MAX,
        spec_decode(d0) is Some,
        spec_find_attr_record(spec_decode(d0).unwrap(), sel) == Some(rec),
    ensures
        patch_in_bounds(d0.len(), rec, new_chars, encode_utf8(new_chars)),
{
    let t = lemma_selected_record(d0, sel, rec);
    let s = spec_payload_start(d0).unwrap();
    let p0 = payload_of(d0, s);
    let tail = tail_of(p0, spec_scan(p0), t);
    match rec.value {
        AttrValueModel::Str(old) => {
            lemma_str_tail(tail, rec.name, encode_utf8(old));
        },
        _ => {},
    }
}

// ---------------------------------------------------------------------------
// Reading back a patch whose bytes hold no name
// ---------------------------------------------------------------------------

/// Whether no 16 bytes of `b` read as an attribute name.
pub open spec fn holds_no_name(b: Seq<u8>) -> bool {
    forall|i: int| 0 <= i && i + NAME_LEN <= b.len() ==> #[trigger] spec_name_at(b, i) is None
}

proof fn lemma_scan_same_from(p0: Seq<u8>, p1: Seq<u8>, q: int)
    requires
        0 <= q,
        p0.len() == p1.len(),
        forall|r: int| q <= r ==> #[trigger] spec_name_at(p0, r) == spec_name_at(p1, r),
    ensures
        scan_from(p0, q) == scan_from(p1, q),
    decreases p0.len() - q,
{
    if q + NAME_LEN < p0.len() {
        assert(spec_name_at(p0, q) == spec_name_at(p1, q));
        lemma_scan_same_from(p0, p1, q + 1);
        lemma_scan_same_from(p0, p1, q + NAME_LEN);
    }
}

proof fn lemma_scan_skip(p: Seq<u8>, a: int, b: int)
    requires
        0 <= a <= b,
        forall|r: int| a <= r < b ==> #[trigger] spec_name_at(p, r) is None,
    ensures
        scan_from(p, a) == scan_from(p, b),
    decreases b - a,
{
    if a < b {
        assert(spec_name_at(p, a) is None);
        lemma_scan_skip(p, a + 1, b);
    }
}

proof fn lemma_scan_prefix(p0: Seq<u8>, p1: Seq<u8>, a: int, k: int)
    requires
        0 <= a,
        p0.len() == p1.len(),
        0 <= k < scan_from(p0, a).len(),
        forall|r: int|
            a <= r <= scan_from(p0, a)[k].0 ==> #[trigger] spec_name_at(p0, r) == spec_name_at(
                p1,
                r,
            ),
    ensures
        scan_from(p1, a) == scan_from(p0, a).take(k) + scan_from(p1, scan_from(p0, a)[k].0),
    decreases p0.len() - a,
{
    let sq = scan_from(p0, a);
    lemma_scan_props(p0, a);
    assert(a <= sq[k].0);
    assert(spec_name_at(p0, a) == spec_name_at(p1, a));
    match spec_name_at(p0, a) {
        Some(n) => {
            let rest = scan_from(p0, a + NAME_LEN);
            assert(sq == seq![(a, n)] + rest);
            if k == 0 {
                assert(sq.take(0) =~= Seq::<(int, Seq<char>)>::empty());
                assert(sq.take(0) + scan_from(p1, a) =~= scan_from(p1, a));
            } else {
                assert(rest[k - 1] == sq[k]);
                lemma_scan_prefix(p0, p1, a + NAME_LEN, k - 1);
                assert(sq.take(k) =~= seq![(a, n)] + rest.take(k - 1));
                assert(sq.take(k) + scan_from(p1, sq[k].0) =~= seq![(a, n)] + (rest.take(k - 1)
                    + scan_from(p1, sq[k].0)));
            }
        },
        None => {
            lemma_scan_prefix(p0, p1, a + 1, k);
        },
    }
}

proof fn lemma_scan_first_none(p: Seq<u8>, a: int)
    requires
        0 <= a,
        scan_from(p, a).len() > 0,
    ensures
        forall|r: int| a <= r < scan_from(p, a)[0].0 ==> #[trigger] spec_name_at(p, r) is None,
    decreases p.len() - a,
{
    if a + NAME_LEN < p.len() {
        if spec_name_at(p, a) is None {
            lemma_scan_first_none(p, a + 1);
        }
    }
}

/// A window starting among the value bytes, the type byte or the pad of a
/// tail reads as no name, when the value bytes hold none.
proof fn lemma_value_window_no_name(p1: Seq<u8>, o: int, nb: Seq<u8>, r: int)
    requires
        0 <= o <= r < o + nb.len() + 4,
        o + nb.len() + 4 <= p1.len(),
        p1.subrange(o, o + nb.len()) == nb,
        p1[o + nb.len()] == 0x11 || p1[o + nb.len()] == 0x12,
        p1[o + nb.len() + 1] == 0 && p1[o + nb.len() + 2] == 0 && p1[o + nb.len() + 3] == 0,
        holds_no_name(nb),
    ensures
        spec_name_at(p1, r) is None,
{
    let l = nb.len() as int;
    if r + NAME_LEN <= p1.len() {
        let w = p1.subrange(r, r + NAME_LEN);
        lemma_allowed_run(w, 0);
        let k = allowed_run(w, 0);
        if r + NAME_LEN <= o + l {
            assert(nb.subrange(r - o, r - o + NAME_LEN) =~= w);
            assert(spec_name_at(nb, r - o) is None);
        } else if r < o + l {
            let j0 = o + l - r;
            assert(w[j0] == p1[o + l]);
            assert(!is_allowed(w[j0]));
            assert(k <= j0);
            assert(w[j0] != 0);
        } else {
            assert(w[0] == p1[r]);
            assert(!is_allowed(w[0]));
            assert(k == 0);
        }
    }
}

/// Writing, over the value of record `t`, bytes of the same length that hold
/// no name leaves the names a scan finds as they were.
proof fn lemma_scan_after_value_write(p0: Seq<u8>, t: int, nb: Seq<u8>)
    requires
        0 <= t < spec_scan(p0).len(),
        nb.len() + 4 == tail_of(p0, spec_scan(p0), t).len(),
        tail_of(p0, spec_scan(p0), t)[nb.len() as int] == 0x11 || tail_of(p0, spec_scan(p0), t)[nb.len() as int]
            == 0x12,
        tail_of(p0, spec_scan(p0), t)[nb.len() as int + 1] == 0,
        tail_of(p0, spec_scan(p0), t)[nb.len() as int + 2] == 0,
        tail_of(p0, spec_scan(p0), t)[nb.len() as int + 3] == 0,
        holds_no_name(nb),
    ensures
        spec_scan(splice(p0, spec_scan(p0)[t].0 + NAME_LEN, nb)) == spec_scan(p0),
{
    let names = spec_scan(p0);
    lemma_scan_props(p0, 0);
    let pos = names[t].0;
    let n = names[t].1;
    let o = pos + NAME_LEN;
    let l = nb.len() as int;
    let next = o + l + 4;
    let tail = tail_of(p0, names, t);
    let p1 = splice(p0, o, nb);
    assert(p1.len() == p0.len());
    assert(next <= p0.len());
    // Names at or before `pos` read bytes before the value.
    assert forall|r: int| 0 <= r <= pos implies #[trigger] spec_name_at(p0, r) == spec_name_at(p1, r) by {
        if r + NAME_LEN <= p0.len() {
            assert(p1.subrange(r, r + NAME_LEN) =~= p0.subrange(r, r + NAME_LEN));
        }
    }
    // Names from the end of the value on read unchanged bytes.
    assert forall|r: int| o + l <= r implies #[trigger] spec_name_at(p0, r) == spec_name_at(p1, r) by {
        if r + NAME_LEN <= p0.len() {
            assert(p1.subrange(r, r + NAME_LEN) =~= p0.subrange(r, r + NAME_LEN));
        }
    }
    // No name starts among the value, type and pad bytes of the new file.
    assert(p1.subrange(o, o + l) =~= nb);
    assert(p1[o + l] == tail[l]);
    assert(p1[o + l + 1] == tail[l + 1]);
    assert(p1[o + l + 2] == tail[l + 2]);
    assert(p1[o + l + 3] == tail[l + 3]);
    assert forall|r: int| o <= r < next implies #[trigger] spec_name_at(p1, r) is None by {
        lemma_value_window_no_name(p1, o, nb, r);
    }
    lemma_scan_skip(p1, o, next);
    lemma_scan_same_from(p0, p1, next);
    // Up to `pos`, both scans are the same.
    lemma_scan_prefix(p0, p1, 0, t);
    lemma_scan_prefix(p0, p0, 0, t);
    assert(scan_from(p1, pos) == seq![(pos, n)] + scan_from(p1, o));
    assert(scan_from(p0, pos) == seq![(pos, n)] + scan_from(p0, o));
    // In the old file the scan from the value's start goes on at `next`.
    let rest = scan_from(p0, o);
    assert(names == names.take(t) + (seq![(pos, n)] + rest));
    assert(rest =~= names.subrange(t + 1, names.len() as int));
    if t + 1 < names.len() {
        assert(rest[0] == names[t + 1]);
        assert(next == names[t + 1].0);
        lemma_scan_first_none(p0, o);
        lemma_scan_skip(p0, o, next);
    } else {
        assert(next == p0.len());
        assert(scan_from(p0, next) =~= Seq::<(int, Seq<char>)>::empty());
        assert(rest.len() == 0);
    }
    assert(scan_from(p1, 0) =~= scan_from(p0, 0));
}

/// Reading back a patch, under conditions on what is written. Let
/// `patch_attr` succeed in rewriting, with `new_chars`, the record `rec`
/// that `sel` selects in the decoding of `d0`, giving `d1`. If no 16 of the
/// bytes written read as an attribute name (always so for fewer than 16
/// bytes), the payload keeps its start, and the new value neither turns a
/// `type` record into or out of a page opener nor renames an object, then
/// `d1` decodes to the same pages, components and records as `d0`, except
/// that `rec` now holds the value written, and `sel` selects it there.
pub proof fn lemma_patch_reads_back_when_no_name_written(
    d0: Seq<u8>,
    d1: Seq<u8>,
    sel: SelectorModel,
    new_chars: Seq<char>,
    rec: AttrRecordModel,
)
    requires
        d0.len() <= usize::MAX,
        spec_decode(d0) is Some,
        spec_find_attr_record(spec_decode(d0).unwrap(), sel) == Some(rec),
        patch_outcome(d0, d1, rec, sel, new_chars, encode_utf8(new_chars), Ok(())),
        keeps_structure(rec, written_value(rec, new_chars)),
        holds_no_name(written_bytes(rec, new_chars)),
        spec_payload_start(d1) == spec_payload_start(d0),
    ensures
        spec_decode(d1) == Some(
            set_in_decoded(spec_decode(d0).unwrap(), rec.file_offset, written_value(rec, new_chars)),
        ),
        spec_find_attr_record(spec_decode(d1).unwrap(), sel) == Some(
            with_value(rec, written_value(rec, new_chars)),
        ),
        rec.value is Str && is_ascii_chars(new_chars) ==> written_value(rec, new_chars)
            == AttrValueModel::Str(new_chars),
{
    lemma_decoded_patch_in_bounds(d0, sel, new_chars, rec);
    lemma_patch_writes_value_only(d0, d1, sel, new_chars, rec);
    let t = lemma_selected_record(d0, sel, rec);
    let s = spec_payload_start(d0).unwrap();
    let p0 = payload_of(d0, s);
    let names = spec_scan(p0);
    let tail = tail_of(p0, names, t);
    let nb = written_bytes(rec, new_chars);
    assert(tail.len() >= 4);
    assert(nb.len() + 4 == tail.len());
    lemma_scan_props(p0, 0);
    let o = names[t].0 + NAME_LEN;
    let fo = rec.file_offset as int;
    assert(fo == s + names[t].0);
    assert(d1 == splice(d0, fo + NAME_LEN, nb));
    assert(fo + NAME_LEN + nb.len() <= d0.len());
    assert(d1.len() == d0.len());
    assert(0 <= s < d0.len());
    assert(p0.len() == d0.len() - s);
    assert(o + nb.len() <= p0.len());
    let p1 = payload_of(d1, s);
    let q1 = splice(p0, o, nb);
    assert(q1.len() == p0.len());
    assert(p1.len() == q1.len());
    assert forall|i: int| 0 <= i < p1.len() implies p1[i] == q1[i] by {
        assert(p1[i] == d1[s + i]);
        if i < o {
            assert(d1[s + i] == d0[s + i]);
        } else if i < o + nb.len() {
            assert(d1[s + i] == nb[i - o]);
        } else {
            assert(d1[s + i] == d0[s + i]);
        }
    }
    assert(p1 =~= q1);
    lemma_scan_after_value_write(p0, t, nb);
    lemma_patch_reads_back(d0, d1, sel, new_chars, rec);
}

} // verus!
