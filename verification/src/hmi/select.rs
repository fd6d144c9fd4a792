//! What a selector picks, and which bytes read as attribute names.

use vstd::prelude::*;

use super::{
    allowed_run, find_attr_from, find_in_components, find_in_page, find_in_pages,
    lemma_allowed_run, spec_find_attr_record, spec_name_at, AttrRecordModel, DecodedModel,
    PageModel, SelectorModel, NAME_LEN,
};

verus! {

/// Whether `r` is, in page `p`, a record the selector `sel` may pick: named
/// `sel.attr`, on a page the selector admits (any page when it names none,
/// else the page of that name), and either one of the page's own records
/// (when the selector names no object, or the page carries the named one)
/// or a record of a component carrying the selected object name.
pub open spec fn selectable_in(p: PageModel, sel: SelectorModel, r: AttrRecordModel) -> bool {
    &&& r.name == sel.attr
    &&& (sel.page matches Some(pg) ==> p.objname == Some(pg))
    &&& held_for(p, sel, r)
}

/// Whether `r` is one of page `p`'s own records, when the selector names no
/// object or the page carries the named one, or a record of one of its
/// components carrying the selected object name.
pub open spec fn held_for(p: PageModel, sel: SelectorModel, r: AttrRecordModel) -> bool {
    (p.attrs.contains(r) && (sel.objname is None || p.objname == sel.objname)) || exists|c: int|
        0 <= c < p.components.len() && (#[trigger] p.components[c]).objname == sel.objname
            && p.components[c].attrs.contains(r)
}

proof fn lemma_attr_from(attrs: Seq<AttrRecordModel>, name: Seq<char>, i: int)
    requires
        0 <= i,
    ensures
        find_attr_from(attrs, name, i) matches Some(r) ==> r.name == name && attrs.contains(r),
        find_attr_from(attrs, name, i) is None ==> forall|j: int|
            i <= j < attrs.len() ==> (#[trigger] attrs[j]).name != name,
    decreases attrs.len() - i,
{
    if i < attrs.len() && attrs[i].name != name {
        lemma_attr_from(attrs, name, i + 1);
    }
}

proof fn lemma_comps(p: PageModel, sel: SelectorModel, i: int)
    requires
        0 <= i,
    ensures
        find_in_components(p.components, sel, i) matches Some(r) ==> r.name == sel.attr && exists|
            c: int,
        |
            0 <= c < p.components.len() && (#[trigger] p.components[c]).objname == sel.objname
                && p.components[c].attrs.contains(r),
        find_in_components(p.components, sel, i) is None ==> forall|c: int, j: int|
            i <= c < p.components.len() && p.components[c].objname == sel.objname && 0 <= j
                < p.components[c].attrs.len() ==> (#[trigger] p.components[c].attrs[j]).name
                != sel.attr,
    decreases p.components.len() - i,
{
    if i < p.components.len() {
        lemma_attr_from(p.components[i].attrs, sel.attr, 0);
        lemma_comps(p, sel, i + 1);
    }
}

proof fn lemma_page(p: PageModel, sel: SelectorModel)
    ensures
        find_in_page(p, sel) matches Some(r) ==> r.name == sel.attr && held_for(p, sel, r),
        find_in_page(p, sel) is None ==> forall|r: AttrRecordModel|
            r.name == sel.attr ==> !#[trigger] held_for(p, sel, r),
{
    lemma_attr_from(p.attrs, sel.attr, 0);
    lemma_comps(p, sel, 0);
    if find_in_page(p, sel) is None {
        assert forall|r: AttrRecordModel| r.name == sel.attr implies !#[trigger] held_for(p, sel, r) by {
            if p.attrs.contains(r) && (sel.objname is None || p.objname == sel.objname) {
                let j = choose|j: int| 0 <= j < p.attrs.len() && p.attrs[j] == r;
                assert(p.attrs[j].name != sel.attr);
            }
            if exists|c: int|
                0 <= c < p.components.len() && (#[trigger] p.components[c]).objname == sel.objname
                    && p.components[c].attrs.contains(r) {
                let c = choose|c: int|
                    0 <= c < p.components.len() && (#[trigger] p.components[c]).objname
                        == sel.objname && p.components[c].attrs.contains(r);
                let j = choose|j: int| 0 <= j < p.components[c].attrs.len() && p.components[c].attrs[j] == r;
                assert(p.components[c].attrs[j].name != sel.attr);
            }
        }
    }
}

proof fn lemma_pages(ps: Seq<PageModel>, sel: SelectorModel, i: int)
    requires
        0 <= i,
    ensures
        find_in_pages(ps, sel, i) matches Some(r) ==> exists|k: int|
            i <= k < ps.len() && selectable_in(#[trigger] ps[k], sel, r),
        find_in_pages(ps, sel, i) is None ==> forall|k: int, r: AttrRecordModel|
            i <= k < ps.len() ==> !#[trigger] selectable_in(ps[k], sel, r),
    decreases ps.len() - i,
{
    if i < ps.len() {
        lemma_page(ps[i], sel);
        lemma_pages(ps, sel, i + 1);
        if (sel.page matches Some(pg) ==> ps[i].objname == Some(pg)) && find_in_page(ps[i], sel) is Some {
            assert(selectable_in(ps[i], sel, find_in_page(ps[i], sel).unwrap()));
        } else {
            assert forall|k: int, r: AttrRecordModel|
                i <= k < ps.len() && find_in_pages(ps, sel, i) is None implies !#[trigger] selectable_in(
                ps[k],
                sel,
                r,
            ) by {
                if k == i && r.name == sel.attr {
                    if sel.page matches Some(pg) ==> ps[i].objname == Some(pg) {
                        assert(find_in_page(ps[i], sel) is None);
                        assert(!held_for(ps[i], sel, r));
                    }
                }
            }
        }
    }
}

/// What a selector picks: a record of the given attribute name on a page
/// the selector admits (the page it names, if it names one), that page's
/// own record when the selector names no object or the page carries the
/// named one, else a record of a component carrying the named object
/// (`None` matching `None`). It picks nothing only where no page holds
/// such a record.
pub proof fn lemma_selector_picks(d: DecodedModel, sel: SelectorModel)
    ensures
        spec_find_attr_record(d, sel) matches Some(r) ==> exists|k: int|
            0 <= k < d.pages.len() && selectable_in(#[trigger] d.pages[k], sel, r),
        spec_find_attr_record(d, sel) is None ==> forall|k: int, r: AttrRecordModel|
            0 <= k < d.pages.len() ==> !#[trigger] selectable_in(d.pages[k], sel, r),
{
    lemma_pages(d.pages, sel, 0);
}

/// Whether `b` is an ASCII letter or digit, `_` or `-`.
pub open spec fn is_name_byte(b: u8) -> bool {
    ('0' as u8 <= b <= '9' as u8) || ('A' as u8 <= b <= 'Z' as u8) || ('a' as u8 <= b <= 'z' as u8)
        || b == '_' as u8 || b == '-' as u8
}

/// A name of 1 to 16 ASCII letters, digits, `_` or `-`, zero-padded to 16
/// bytes, reads as that name; 16 bytes whose first is none of those read as
/// no name.
pub proof fn lemma_name_window(p: Seq<u8>, off: int, nb: Seq<u8>)
    requires
        0 <= off,
        off + NAME_LEN <= p.len(),
    ensures
        (1 <= nb.len() <= NAME_LEN && (forall|i: int| 0 <= i < nb.len() ==> is_name_byte(#[trigger] nb[i]))
            && p.subrange(off, off + NAME_LEN) == nb + Seq::new((NAME_LEN - nb.len()) as nat, |i: int| 0u8))
            ==> spec_name_at(p, off) == Some(Seq::new(nb.len(), |i: int| nb[i] as char)),
        !is_name_byte(p[off]) ==> spec_name_at(p, off) is None,
{
    let w = p.subrange(off, off + NAME_LEN);
    lemma_allowed_run(w, 0);
    let k = allowed_run(w, 0);
    if !is_name_byte(p[off]) {
        assert(w[0] == p[off]);
        assert(k == 0);
    }
    if 1 <= nb.len() <= NAME_LEN && (forall|i: int| 0 <= i < nb.len() ==> is_name_byte(#[trigger] nb[i]))
        && w == nb + Seq::new((NAME_LEN - nb.len()) as nat, |i: int| 0u8) {
        let l = nb.len() as int;
        assert forall|i: int| 0 <= i < l implies super::is_allowed(#[trigger] w[i]) by {
            assert(w[i] == nb[i]);
            assert(is_name_byte(nb[i]));
        }
        if l < NAME_LEN {
            assert(w[l] == 0u8);
        }
        assert(k == l);
        assert(forall|j: int| k <= j < NAME_LEN ==> #[trigger] w[j] == 0u8);
        assert(super::ascii_chars(w.subrange(0, k)) =~= Seq::new(nb.len(), |i: int| nb[i] as char));
    }
}

} // verus!
