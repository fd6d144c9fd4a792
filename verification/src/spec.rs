//! UI spec schema and the `compile` pipeline.
//!
//! `compile` does not synthesize a `.tft` from nothing. It patches a
//! scaffold `.tft` compiled once by the Nextion Editor: for each component
//! named in the spec it looks up the component's current type, geometry and
//! text in the scaffold's own `.HMI` (which still has object names), finds
//! the component in the `.tft` by searching for that current geometry, and
//! rewrites only what differs. No component is ever added or removed and no
//! font/image data is ever touched.

use vstd::prelude::*;

use crate::error::{SpecError, SpecErrorModel, TftErrorModel};
use crate::hmi::{
    attrs_view, find_attr_from, opt_view, AttrRecord, AttrRecordModel, AttrValue, AttrValueModel,
    Component, ComponentModel, Decoded, DecodedModel, PageModel, comps_view, pages_view,
};
use crate::strings::{dec, hex2, push_digits, push_hex2, str_eq};
use crate::target::{normalize_target_name, canonical_model_name, compact_model_name, Target};
use crate::tft::{
    self, find_record_would_panic, geom_desc, geom_would_panic, spec_find_record,
    spec_parse_header, spec_patch_button_record, spec_patch_geom, spec_patch_text,
    spec_patch_text_record, Geometry,
};

verus! {

/// The desired state of one named component.
#[derive(Debug, Clone, Default)]
pub struct ComponentSpec {
    pub objname: String,
    /// Component class: `t` (text/label), `b` (button), `m` (hotspot). Not
    /// used by `compile` (it reads the type from the scaffold `.HMI`); used
    /// by the HTML renderer, which has no scaffold to read it from.
    pub component_type: Option<String>,
    pub x: Option<u16>,
    pub y: Option<u16>,
    pub w: Option<u16>,
    pub h: Option<u16>,
    pub txt: Option<String>,
    /// Text color (RGB565), e.g. `0xffff` for white.
    pub pco: Option<u16>,
    /// Background color (RGB565), normal state -- `b` components only.
    pub bco: Option<u16>,
    /// Background color (RGB565), pressed state -- `b` components only.
    pub bco2: Option<u16>,
    pub font: Option<u8>,
}

/// A component spec as plain values.
pub struct ComponentSpecModel {
    pub objname: Seq<char>,
    pub component_type: Option<Seq<char>>,
    pub x: Option<u16>,
    pub y: Option<u16>,
    pub w: Option<u16>,
    pub h: Option<u16>,
    pub txt: Option<Seq<char>>,
    pub pco: Option<u16>,
    pub bco: Option<u16>,
    pub bco2: Option<u16>,
    pub font: Option<u8>,
}

impl View for ComponentSpec {
    type V = ComponentSpecModel;

    open spec fn view(&self) -> ComponentSpecModel {
        ComponentSpecModel {
            objname: self.objname@,
            component_type: opt_view(self.component_type),
            x: self.x,
            y: self.y,
            w: self.w,
            h: self.h,
            txt: opt_view(self.txt),
            pco: self.pco,
            bco: self.bco,
            bco2: self.bco2,
            font: self.font,
        }
    }
}

/// A whole UI spec: target display, page name and component specs.
#[derive(Debug, Clone)]
pub struct UiSpec {
    pub target: String,
    pub page: String,
    pub components: Vec<ComponentSpec>,
}

/// A UI spec as plain values.
pub struct UiSpecModel {
    pub target: Seq<char>,
    pub page: Seq<char>,
    pub components: Seq<ComponentSpecModel>,
}

/// The views of a sequence of component specs.
pub open spec fn specs_view(v: Seq<ComponentSpec>) -> Seq<ComponentSpecModel> {
    v.map_values(|c: ComponentSpec| c@)
}

impl View for UiSpec {
    type V = UiSpecModel;

    open spec fn view(&self) -> UiSpecModel {
        UiSpecModel {
            target: self.target@,
            page: self.page@,
            components: specs_view(self.components@),
        }
    }
}

impl UiSpec {
    /// The display the spec is for.
    pub fn target(&self) -> (r: Result<Target, SpecError>)
        ensures
            ({
                let n = normalize_target_name(self.target@);
                if n == canonical_model_name() || n == compact_model_name() {
                    r == Ok::<Target, SpecError>(Target::Nx8048p050011rY)
                } else {
                    r matches Err(e) && e@ == SpecErrorModel::InvalidTarget(n)
                }
            }),
    {
        match Target::parse(self.target.as_str()) {
            Ok(t) => Ok(t),
            Err(e) => Err(SpecError::InvalidTarget(e)),
        }
    }
}

/// One applied change, returned for reporting.
#[derive(Debug, Clone)]
pub struct AppliedChange {
    pub objname: String,
    pub field: String,
    pub from: String,
    pub to: String,
}

/// A change as plain values.
pub struct ChangeModel {
    pub objname: Seq<char>,
    pub field: Seq<char>,
    pub from: Seq<char>,
    pub to: Seq<char>,
}

impl View for AppliedChange {
    type V = ChangeModel;

    open spec fn view(&self) -> ChangeModel {
        ChangeModel { objname: self.objname@, field: self.field@, from: self.from@, to: self.to@ }
    }
}

/// The views of a sequence of changes.
pub open spec fn changes_view(v: Seq<AppliedChange>) -> Seq<ChangeModel> {
    v.map_values(|c: AppliedChange| c@)
}

// ---------------------------------------------------------------------------
// The scaffold index
// ---------------------------------------------------------------------------

/// What the scaffold `.HMI` says of one component.
#[derive(Debug, Clone)]
pub struct ScaffoldComponent {
    pub component_type: String,
    pub x: u16,
    pub y: u16,
    pub w: u16,
    pub h: u16,
    pub txt: Option<String>,
}

/// A scaffold component as plain values.
pub struct ScaffoldModel {
    pub component_type: Seq<char>,
    pub x: u16,
    pub y: u16,
    pub w: u16,
    pub h: u16,
    pub txt: Option<Seq<char>>,
}

impl View for ScaffoldComponent {
    type V = ScaffoldModel;

    open spec fn view(&self) -> ScaffoldModel {
        ScaffoldModel {
            component_type: self.component_type@,
            x: self.x,
            y: self.y,
            w: self.w,
            h: self.h,
            txt: opt_view(self.txt),
        }
    }
}

/// The string value of the first attribute with the given name, if that
/// attribute holds a string.
pub open spec fn spec_attr_str(attrs: Seq<AttrRecordModel>, name: Seq<char>) -> Option<Seq<char>> {
    match find_attr_from(attrs, name, 0) {
        Some(r) => match r.value {
            AttrValueModel::Str(s) => Some(s),
            _ => None,
        },
        None => None,
    }
}

/// The integer value of the first attribute with the given name, if that
/// attribute holds an integer.
pub open spec fn spec_attr_int(attrs: Seq<AttrRecordModel>, name: Seq<char>) -> Option<u64> {
    match find_attr_from(attrs, name, 0) {
        Some(r) => match r.value {
            AttrValueModel::Int(i) => Some(i),
            _ => None,
        },
        None => None,
    }
}

/// An integer attribute truncated to 16 bits, 0 if absent.
pub open spec fn attr_u16(attrs: Seq<AttrRecordModel>, name: Seq<char>) -> u16 {
    match spec_attr_int(attrs, name) {
        Some(i) => i as u16,
        None => 0,
    }
}

/// What the scaffold says of a component: its `type` (empty if absent),
/// `x,y,w,h` (0 if absent) and `txt`.
pub open spec fn scaffold_of(c: ComponentModel) -> ScaffoldModel {
    ScaffoldModel {
        component_type: match spec_attr_str(c.attrs, "type"@) {
            Some(s) => s,
            None => Seq::empty(),
        },
        x: attr_u16(c.attrs, "x"@),
        y: attr_u16(c.attrs, "y"@),
        w: attr_u16(c.attrs, "w"@),
        h: attr_u16(c.attrs, "h"@),
        txt: spec_attr_str(c.attrs, "txt"@),
    }
}

/// All components of all pages, in order.
pub open spec fn flat_components(pages: Seq<PageModel>) -> Seq<ComponentModel>
    decreases pages.len(),
{
    if pages.len() == 0 {
        Seq::empty()
    } else {
        flat_components(pages.drop_last()) + pages.last().components
    }
}

/// Every named component with what the scaffold says of it, in order.
pub open spec fn scaffold_index(comps: Seq<ComponentModel>) -> Seq<(Seq<char>, ScaffoldModel)>
    decreases comps.len(),
{
    if comps.len() == 0 {
        Seq::empty()
    } else {
        let rest = scaffold_index(comps.drop_last());
        match comps.last().objname {
            Some(n) => rest.push((n, scaffold_of(comps.last()))),
            None => rest,
        }
    }
}

/// The last indexed component with the given name (a later component of the
/// same name replaces an earlier one).
pub open spec fn scaffold_lookup(idx: Seq<(Seq<char>, ScaffoldModel)>, name: Seq<char>) -> Option<
    ScaffoldModel,
>
    decreases idx.len(),
{
    if idx.len() == 0 {
        None
    } else if idx.last().0 == name {
        Some(idx.last().1)
    } else {
        scaffold_lookup(idx.drop_last(), name)
    }
}

/// The index of a decoded scaffold.
pub open spec fn spec_scaffold_index(d: DecodedModel) -> Seq<(Seq<char>, ScaffoldModel)> {
    scaffold_index(flat_components(d.pages))
}

/// The views of an index.
pub open spec fn index_view(v: Seq<(String, ScaffoldComponent)>) -> Seq<(Seq<char>, ScaffoldModel)> {
    v.map_values(|e: (String, ScaffoldComponent)| (e.0@, e.1@))
}

fn attr_str(attrs: &Vec<AttrRecord>, name: &str) -> (r: Option<String>)
    ensures
        opt_view(r) == spec_attr_str(attrs_view(attrs@), name@),
{
    let ghost av = attrs_view(attrs@);
    let mut i: usize = 0;
    while i < attrs.len()
        invariant
            i <= attrs@.len(),
            av == attrs_view(attrs@),
            find_attr_from(av, name@, 0) == find_attr_from(av, name@, i as int),
        decreases attrs@.len() - i,
    {
        assert(av[i as int] == attrs@[i as int]@);
        if str_eq(attrs[i].name.as_str(), name) {
            return match &attrs[i].value {
                AttrValue::Str(s) => Some(s.clone()),
                _ => None,
            };
        }
        i = i + 1;
    }
    None
}

fn attr_int(attrs: &Vec<AttrRecord>, name: &str) -> (r: Option<u64>)
    ensures
        r == spec_attr_int(attrs_view(attrs@), name@),
{
    let ghost av = attrs_view(attrs@);
    let mut i: usize = 0;
    while i < attrs.len()
        invariant
            i <= attrs@.len(),
            av == attrs_view(attrs@),
            find_attr_from(av, name@, 0) == find_attr_from(av, name@, i as int),
        decreases attrs@.len() - i,
    {
        assert(av[i as int] == attrs@[i as int]@);
        if str_eq(attrs[i].name.as_str(), name) {
            return match &attrs[i].value {
                AttrValue::Int(v) => Some(*v),
                _ => None,
            };
        }
        i = i + 1;
    }
    None
}

fn int_or_zero(v: Option<u64>) -> (r: u16)
    ensures
        r == match v {
            Some(i) => i as u16,
            None => 0u16,
        },
{
    match v {
        Some(i) => i as u16,
        None => 0,
    }
}

fn scaffold_component(comp: &Component) -> (s: ScaffoldComponent)
    ensures
        s@ == scaffold_of(comp@),
{
    let component_type = match attr_str(&comp.attrs, "type") {
        Some(t) => t,
        None => String::new(),
    };
    let x = int_or_zero(attr_int(&comp.attrs, "x"));
    let y = int_or_zero(attr_int(&comp.attrs, "y"));
    let w = int_or_zero(attr_int(&comp.attrs, "w"));
    let h = int_or_zero(attr_int(&comp.attrs, "h"));
    let txt = attr_str(&comp.attrs, "txt");
    ScaffoldComponent { component_type, x, y, w, h, txt }
}

fn index_scaffold(decoded: &Decoded) -> (out: Vec<(String, ScaffoldComponent)>)
    ensures
        index_view(out@) == spec_scaffold_index(decoded@),
{
    let ghost pv = pages_view(decoded.pages@);
    let mut out: Vec<(String, ScaffoldComponent)> = Vec::new();
    let mut i: usize = 0;
    while i < decoded.pages.len()
        invariant
            i <= decoded.pages@.len(),
            pv == pages_view(decoded.pages@),
            pv == decoded@.pages,
            index_view(out@) == scaffold_index(flat_components(pv.take(i as int))),
        decreases decoded.pages@.len() - i,
    {
        let page = &decoded.pages[i];
        let ghost before = flat_components(pv.take(i as int));
        let ghost cv = comps_view(page.components@);
        let mut j: usize = 0;
        while j < page.components.len()
            invariant
                j <= page.components@.len(),
                cv == comps_view(page.components@),
                index_view(out@) == scaffold_index(before + cv.take(j as int)),
            decreases page.components@.len() - j,
        {
            let comp = &page.components[j];
            let ghost s0 = before + cv.take(j as int);
            proof {
                assert(before + cv.take(j + 1) =~= s0.push(comp@));
                assert(s0.push(comp@).drop_last() =~= s0);
            }
            match &comp.objname {
                Some(n) => {
                    let ghost iv = index_view(out@);
                    out.push((n.clone(), scaffold_component(comp)));
                    assert(index_view(out@) =~= iv.push((n@, scaffold_of(comp@))));
                },
                None => {},
            }
            j = j + 1;
        }
        proof {
            assert(cv.take(cv.len() as int) =~= cv);
            assert(pv.take(i + 1).drop_last() =~= pv.take(i as int));
            assert(pv[i as int] == page@);
        }
        i = i + 1;
    }
    proof {
        assert(pv.take(pv.len() as int) =~= pv);
    }
    out
}

fn lookup<'a>(index: &'a Vec<(String, ScaffoldComponent)>, name: &String) -> (r: Option<
    &'a ScaffoldComponent,
>)
    ensures
        match scaffold_lookup(index_view(index@), name@) {
            Some(m) => r matches Some(c) && c@ == m,
            None => r is None,
        },
{
    let ghost iv = index_view(index@);
    let mut k: usize = index.len();
    assert(iv.take(k as int) =~= iv);
    while k > 0
        invariant
            k <= index@.len(),
            iv == index_view(index@),
            scaffold_lookup(iv, name@) == scaffold_lookup(iv.take(k as int), name@),
        decreases k,
    {
        proof {
            assert(iv.take(k as int).drop_last() =~= iv.take(k - 1));
        }
        if str_eq(index[k - 1].0.as_str(), name.as_str()) {
            return Some(&index[k - 1].1);
        }
        k = k - 1;
    }
    None
}

// ---------------------------------------------------------------------------
// The compile pipeline as plain values
// ---------------------------------------------------------------------------

/// What compiling (part of) a spec does: it completes with the file and the
/// changes made, fails with the file as left and an error, or panics.
pub enum CompileOutcome {
    Done(Seq<u8>, Seq<ChangeModel>),
    Failed(Seq<u8>, SpecErrorModel),
    Panics,
}

/// An outcome with earlier changes put in front of its own.
pub open spec fn after(ch: Seq<ChangeModel>, o: CompileOutcome) -> CompileOutcome {
    match o {
        CompileOutcome::Done(d, ch2) => CompileOutcome::Done(d, ch + ch2),
        other => other,
    }
}

/// A change record.
pub open spec fn change(objname: Seq<char>, field: Seq<char>, from: Seq<char>, to: Seq<char>) -> ChangeModel {
    ChangeModel { objname, field, from, to }
}

/// The geometry the scaffold has.
pub open spec fn current_geom(cur: ScaffoldModel) -> Geometry {
    (cur.x, cur.y, cur.w, cur.h)
}

/// The geometry the spec asks for: each coordinate it sets, else the
/// scaffold's.
pub open spec fn target_geom(c: ComponentSpecModel, cur: ScaffoldModel) -> Geometry {
    (
        match c.x {
            Some(v) => v,
            None => cur.x,
        },
        match c.y {
            Some(v) => v,
            None => cur.y,
        },
        match c.w {
            Some(v) => v,
            None => cur.w,
        },
        match c.h {
            Some(v) => v,
            None => cur.h,
        },
    )
}

/// A colour as Rust's `{:#06x}` writes a `u16`: `0x` and four hex digits.
pub open spec fn hex06(v: u16) -> Seq<char> {
    seq!['0', 'x'] + hex2((v / 256) as u8) + hex2((v % 256) as u8)
}

/// Text step: rewrite the text slot when the spec's text differs from the
/// scaffold's.
#[verifier::opaque]
pub open spec fn text_phase(c: ComponentSpecModel, cur: ScaffoldModel, data: Seq<u8>) -> CompileOutcome {
    match (c.txt, cur.txt) {
        (Some(new), Some(old)) => if old != new {
            match spec_patch_text(data, old, new) {
                Ok((_, d)) => CompileOutcome::Done(d, seq![change(c.objname, "txt"@, old, new)]),
                Err(e) => CompileOutcome::Failed(data, SpecErrorModel::Tft(e)),
            }
        } else {
            CompileOutcome::Done(data, Seq::empty())
        },
        _ => CompileOutcome::Done(data, Seq::empty()),
    }
}

/// Geometry step: rewrite the quad when the spec's geometry differs from
/// the scaffold's.
#[verifier::opaque]
pub open spec fn geom_phase(c: ComponentSpecModel, cur: ScaffoldModel, data: Seq<u8>) -> CompileOutcome {
    let cg = current_geom(cur);
    let tg = target_geom(c, cur);
    if tg != cg {
        if geom_would_panic(data, cg, tg, None) {
            CompileOutcome::Panics
        } else {
            match spec_patch_geom(data, cg, tg, None) {
                Ok((_, d)) => CompileOutcome::Done(
                    d,
                    seq![change(c.objname, "geometry"@, geom_desc(cg), geom_desc(tg))],
                ),
                Err(e) => CompileOutcome::Failed(data, SpecErrorModel::Tft(e)),
            }
        }
    } else {
        CompileOutcome::Done(data, Seq::empty())
    }
}

/// The change recorded for an optional colour field.
pub open spec fn color_change(objname: Seq<char>, field: Seq<char>, v: Option<u16>) -> Seq<
    ChangeModel,
> {
    match v {
        Some(x) => seq![change(objname, field, "?"@, hex06(x))],
        None => Seq::empty(),
    }
}

/// The change recorded for an optional font id.
pub open spec fn font_change(objname: Seq<char>, v: Option<u8>) -> Seq<ChangeModel> {
    match v {
        Some(x) => seq![change(objname, "font"@, "?"@, dec(x as nat))],
        None => Seq::empty(),
    }
}

/// Colour/font step: refused, before any search, for fields the scaffold's
/// type does not have (`pco` and `font` need `t`, `bco`/`bco2` need `b`,
/// `font` needs `t` or `b`); otherwise the record is located by the (new)
/// geometry and its text (`pco`, `font`) or button (`bco`, `bco2`, `font`)
/// fields are written.
#[verifier::opaque]
pub open spec fn color_phase(c: ComponentSpecModel, cur: ScaffoldModel, data: Seq<u8>) -> CompileOutcome {
    let ty = cur.component_type;
    if c.pco is Some && ty != "t"@ {
        CompileOutcome::Failed(
            data,
            SpecErrorModel::ColorFontUnsupportedForType {
                objname: c.objname,
                field: "pco"@,
                component_type: ty,
            },
        )
    } else if (c.bco is Some || c.bco2 is Some) && ty != "b"@ {
        CompileOutcome::Failed(
            data,
            SpecErrorModel::ColorFontUnsupportedForType {
                objname: c.objname,
                field: "bco/bco2"@,
                component_type: ty,
            },
        )
    } else if c.font is Some && ty != "t"@ && ty != "b"@ {
        CompileOutcome::Failed(
            data,
            SpecErrorModel::ColorFontUnsupportedForType {
                objname: c.objname,
                field: "font"@,
                component_type: ty,
            },
        )
    } else if c.pco is Some || c.bco is Some || c.bco2 is Some || c.font is Some {
        let tg = target_geom(c, cur);
        if find_record_would_panic(data, tg) {
            CompileOutcome::Panics
        } else {
            match spec_find_record(data, tg) {
                Err(e) => CompileOutcome::Failed(data, SpecErrorModel::Tft(e)),
                Ok(rs) => if rs + tft::TEXT_RECORD_LEN > usize::MAX {
                    CompileOutcome::Panics
                } else if ty == "t"@ {
                    match spec_patch_text_record(data, rs as int, c.pco, c.font) {
                        Err(e) => CompileOutcome::Failed(data, SpecErrorModel::Tft(e)),
                        Ok(d) => CompileOutcome::Done(
                            d,
                            color_change(c.objname, "pco"@, c.pco) + font_change(c.objname, c.font),
                        ),
                    }
                } else {
                    match spec_patch_button_record(data, rs as int, c.bco, c.bco2, c.font) {
                        Err(e) => CompileOutcome::Failed(data, SpecErrorModel::Tft(e)),
                        Ok(d) => CompileOutcome::Done(
                            d,
                            color_change(c.objname, "bco"@, c.bco) + color_change(
                                c.objname,
                                "bco2"@,
                                c.bco2,
                            ) + font_change(c.objname, c.font),
                        ),
                    }
                },
            }
        }
    } else {
        CompileOutcome::Done(data, Seq::empty())
    }
}

/// One component: looked up in the scaffold, refused if the scaffold has
/// no geometry to search for but the text or geometry is to change, then
/// the text, geometry and colour/font steps in turn.
#[verifier::opaque]
pub open spec fn compile_component(
    c: ComponentSpecModel,
    idx: Seq<(Seq<char>, ScaffoldModel)>,
    data: Seq<u8>,
) -> CompileOutcome {
    match scaffold_lookup(idx, c.objname) {
        None => CompileOutcome::Failed(
            data,
            SpecErrorModel::ComponentNotInScaffold { objname: c.objname },
        ),
        Some(cur) => {
            let changed = target_geom(c, cur) != current_geom(cur);
            if cur.w == 0 && cur.h == 0 && (changed || c.txt is Some) {
                CompileOutcome::Failed(
                    data,
                    SpecErrorModel::MissingScaffoldGeometry { objname: c.objname },
                )
            } else {
                match text_phase(c, cur, data) {
                    CompileOutcome::Done(d1, ch1) => after(
                        ch1,
                        match geom_phase(c, cur, d1) {
                            CompileOutcome::Done(d2, ch2) => after(ch2, color_phase(c, cur, d2)),
                            other => other,
                        },
                    ),
                    other => other,
                }
            }
        },
    }
}

/// The components from `i` on, in order, each on the file the previous one
/// left.
pub open spec fn compile_from(
    comps: Seq<ComponentSpecModel>,
    idx: Seq<(Seq<char>, ScaffoldModel)>,
    data: Seq<u8>,
    i: int,
) -> CompileOutcome
    decreases comps.len() - i,
{
    if i < 0 || i >= comps.len() {
        CompileOutcome::Done(data, Seq::empty())
    } else {
        match compile_component(comps[i], idx, data) {
            CompileOutcome::Done(d, ch) => after(ch, compile_from(comps, idx, d, i + 1)),
            other => other,
        }
    }
}

/// The whole pipeline: the `.tft` header is checked first, then every
/// component of the spec is applied.
pub open spec fn spec_compile(spec: UiSpecModel, scaffold: DecodedModel, data: Seq<u8>) -> CompileOutcome {
    match spec_parse_header(data) {
        Err(e) => CompileOutcome::Failed(data, SpecErrorModel::Tft(e)),
        Ok(_) => compile_from(spec.components, spec_scaffold_index(scaffold), data, 0),
    }
}

/// Putting two batches of changes in front is putting both in front.
pub proof fn lemma_after_after(a: Seq<ChangeModel>, b: Seq<ChangeModel>, o: CompileOutcome)
    ensures
        after(a, after(b, o)) == after(a + b, o),
{
    match o {
        CompileOutcome::Done(d, ch) => {
            assert(a + (b + ch) =~= (a + b) + ch);
        },
        _ => {},
    }
}

/// Putting no changes in front changes nothing.
pub proof fn lemma_after_empty(o: CompileOutcome)
    ensures
        after(Seq::empty(), o) == o,
{
    match o {
        CompileOutcome::Done(d, ch) => {
            assert(Seq::<ChangeModel>::empty() + ch =~= ch);
        },
        _ => {},
    }
}

proof fn lemma_compile_from_shift(
    a: Seq<ComponentSpecModel>,
    b: Seq<ComponentSpecModel>,
    idx: Seq<(Seq<char>, ScaffoldModel)>,
    d: Seq<u8>,
    j: int,
)
    requires
        0 <= j,
    ensures
        compile_from(a + b, idx, d, a.len() + j) == compile_from(b, idx, d, j),
    decreases b.len() - j,
{
    if j < b.len() {
        assert((a + b)[a.len() + j] == b[j]);
        match compile_component(b[j], idx, d) {
            CompileOutcome::Done(d1, ch) => {
                lemma_compile_from_shift(a, b, idx, d1, j + 1);
            },
            _ => {},
        }
    }
}

proof fn lemma_compile_from_split(
    a: Seq<ComponentSpecModel>,
    b: Seq<ComponentSpecModel>,
    idx: Seq<(Seq<char>, ScaffoldModel)>,
    d: Seq<u8>,
    i: int,
)
    requires
        0 <= i <= a.len(),
    ensures
        compile_from(a + b, idx, d, i) == match compile_from(a, idx, d, i) {
            CompileOutcome::Done(d1, ch) => after(ch, compile_from(b, idx, d1, 0)),
            other => other,
        },
    decreases a.len() - i,
{
    if i == a.len() {
        lemma_compile_from_shift(a, b, idx, d, 0);
        lemma_after_empty(compile_from(b, idx, d, 0));
    } else {
        assert((a + b)[i] == a[i]);
        match compile_component(a[i], idx, d) {
            CompileOutcome::Done(d1, ch) => {
                lemma_compile_from_split(a, b, idx, d1, i + 1);
                match compile_from(a, idx, d1, i + 1) {
                    CompileOutcome::Done(d2, ch2) => {
                        lemma_after_after(ch, ch2, compile_from(b, idx, d2, 0));
                    },
                    _ => {},
                }
            },
            _ => {},
        }
    }
}

/// A spec's components are compiled each in turn, every one on the file the
/// one before left. A spec of one component does what compiling that
/// component does (after the header check), and compiling the components
/// `a` then `b` is compiling `a`, then, if that completed, compiling `b` on
/// its result, with `a`'s changes first; a failure or panic in `a` ends it.
pub proof fn lemma_compile_in_turn(
    target: Seq<char>,
    page: Seq<char>,
    a: Seq<ComponentSpecModel>,
    b: Seq<ComponentSpecModel>,
    c: ComponentSpecModel,
    scaffold: DecodedModel,
    data: Seq<u8>,
)
    requires
        spec_parse_header(data) is Ok,
    ensures
        spec_compile(UiSpecModel { target, page, components: seq![c] }, scaffold, data)
            == compile_component(c, spec_scaffold_index(scaffold), data),
        compile_from(a + b, spec_scaffold_index(scaffold), data, 0) == match compile_from(
            a,
            spec_scaffold_index(scaffold),
            data,
            0,
        ) {
            CompileOutcome::Done(d1, ch) => after(ch, compile_from(b, spec_scaffold_index(scaffold), d1, 0)),
            other => other,
        },
        spec_compile(UiSpecModel { target, page, components: a + b }, scaffold, data) == match spec_compile(
            UiSpecModel { target, page, components: a },
            scaffold,
            data,
        ) {
            CompileOutcome::Done(d1, ch) => after(ch, compile_from(b, spec_scaffold_index(scaffold), d1, 0)),
            other => other,
        },
{
    let idx = spec_scaffold_index(scaffold);
    lemma_compile_from_split(a, b, idx, data, 0);
    let one = seq![c];
    match compile_component(c, idx, data) {
        CompileOutcome::Done(d1, ch) => {
            assert(compile_from(one, idx, d1, 1) == CompileOutcome::Done(d1, Seq::empty()));
            assert(ch + Seq::<ChangeModel>::empty() =~= ch);
        },
        _ => {},
    }
}

/// Whether a spec component sets none of the fields, other than its text
/// and geometry, that compiling can change.
pub open spec fn sets_no_colour_or_font(c: ComponentSpecModel) -> bool {
    c.pco is None && c.bco is None && c.bco2 is None && c.font is None
}

/// How one component is compiled, step by step, against what it asks:
/// - a component missing from the scaffold is refused by name;
/// - a component the scaffold has no geometry for is refused when it moves
///   or sets text;
/// - a component that only changes its text is compiled by patching the
///   scaffold's text into the new one, recording that one change;
/// - a component that only moves is compiled by patching its scaffold quad
///   into the new one, recording that one change;
/// - a component that only sets `pco` on a text component, or only `font`
///   on a text or button component, without moving, is compiled by
///   locating its record by its quad and writing that field there.
pub proof fn lemma_component_steps(
    c: ComponentSpecModel,
    idx: Seq<(Seq<char>, ScaffoldModel)>,
    data: Seq<u8>,
)
    ensures
        scaffold_lookup(idx, c.objname) is None ==> compile_component(c, idx, data)
            == CompileOutcome::Failed(
            data,
            SpecErrorModel::ComponentNotInScaffold { objname: c.objname },
        ),
        scaffold_lookup(idx, c.objname) matches Some(cur) ==> ((cur.w == 0 && cur.h == 0 && (
        target_geom(c, cur) != current_geom(cur) || c.txt is Some)) ==> compile_component(
            c,
            idx,
            data,
        ) == CompileOutcome::Failed(
            data,
            SpecErrorModel::MissingScaffoldGeometry { objname: c.objname },
        )),
        scaffold_lookup(idx, c.objname) matches Some(cur) ==> (c.txt matches Some(t) ==> (
        cur.txt matches Some(o) ==> ((sets_no_colour_or_font(c) && target_geom(c, cur)
            == current_geom(cur) && o != t && !(cur.w == 0 && cur.h == 0)) ==> compile_component(
            c,
            idx,
            data,
        ) == match spec_patch_text(data, o, t) {
            Ok((_, d1)) => CompileOutcome::Done(
                d1,
                seq![ChangeModel { objname: c.objname, field: "txt"@, from: o, to: t }],
            ),
            Err(e) => CompileOutcome::Failed(data, SpecErrorModel::Tft(e)),
        }))),
        scaffold_lookup(idx, c.objname) matches Some(cur) ==> ((sets_no_colour_or_font(c)
            && c.txt is None && target_geom(c, cur) != current_geom(cur) && !(cur.w == 0 && cur.h
            == 0) && !geom_would_panic(data, current_geom(cur), target_geom(c, cur), None))
            ==> compile_component(c, idx, data) == match spec_patch_geom(
            data,
            current_geom(cur),
            target_geom(c, cur),
            None,
        ) {
            Ok((_, d1)) => CompileOutcome::Done(
                d1,
                seq![
                    ChangeModel {
                        objname: c.objname,
                        field: "geometry"@,
                        from: geom_desc(current_geom(cur)),
                        to: geom_desc(target_geom(c, cur)),
                    },
                ],
            ),
            Err(e) => CompileOutcome::Failed(data, SpecErrorModel::Tft(e)),
        }),
        scaffold_lookup(idx, c.objname) matches Some(cur) ==> ((c.txt is None && target_geom(c, cur)
            == current_geom(cur) && c.bco is None && c.bco2 is None && (c.pco is Some || c.font is Some)
            && cur.component_type == "t"@ && !find_record_would_panic(data, current_geom(cur)))
            ==> compile_component(c, idx, data) == match spec_find_record(data, current_geom(cur)) {
            Err(e) => CompileOutcome::Failed(data, SpecErrorModel::Tft(e)),
            Ok(rs) => if rs + tft::TEXT_RECORD_LEN > usize::MAX {
                CompileOutcome::Panics
            } else {
                match spec_patch_text_record(data, rs as int, c.pco, c.font) {
                    Err(e) => CompileOutcome::Failed(data, SpecErrorModel::Tft(e)),
                    Ok(d) => CompileOutcome::Done(
                        d,
                        color_change(c.objname, "pco"@, c.pco) + font_change(c.objname, c.font),
                    ),
                }
            },
        }),
{
    reveal(compile_component);
    reveal(text_phase);
    reveal(geom_phase);
    reveal(color_phase);
    let e = Seq::<ChangeModel>::empty();
    assert(e + e =~= e);
    match scaffold_lookup(idx, c.objname) {
        Some(cur) => {
            match spec_patch_text(data, cur.txt.unwrap_or(Seq::empty()), c.txt.unwrap_or(Seq::empty())) {
                Ok((_, d1)) => {
                    let ch = seq![
                        ChangeModel {
                            objname: c.objname,
                            field: "txt"@,
                            from: cur.txt.unwrap_or(Seq::empty()),
                            to: c.txt.unwrap_or(Seq::empty()),
                        },
                    ];
                    assert(ch + (e + e) =~= ch);
                },
                _ => {},
            }
            match spec_patch_geom(data, current_geom(cur), target_geom(c, cur), None) {
                Ok((_, d1)) => {
                    let ch = seq![
                        ChangeModel {
                            objname: c.objname,
                            field: "geometry"@,
                            from: geom_desc(current_geom(cur)),
                            to: geom_desc(target_geom(c, cur)),
                        },
                    ];
                    assert(e + (ch + e) =~= ch);
                },
                _ => {},
            }
            match spec_find_record(data, current_geom(cur)) {
                Ok(rs) => {
                    match spec_patch_text_record(data, rs as int, c.pco, c.font) {
                        Ok(d) => {
                            let ch = color_change(c.objname, "pco"@, c.pco) + font_change(c.objname, c.font);
                            assert(e + (e + ch) =~= ch);
                        },
                        _ => {},
                    }
                },
                _ => {},
            }
        },
        None => {},
    }
}

/// Whether a spec component asks for nothing the scaffold does not already
/// have: the component is in the scaffold, the geometry it asks for is the
/// scaffold's, any text it sets is the scaffold's text (or the scaffold has
/// none), it sets no colour or font, and it sets no text on a component
/// without geometry.
pub open spec fn asks_nothing_new(c: ComponentSpecModel, idx: Seq<(Seq<char>, ScaffoldModel)>) -> bool {
    match scaffold_lookup(idx, c.objname) {
        None => false,
        Some(cur) => {
            &&& target_geom(c, cur) == current_geom(cur)
            &&& (c.txt matches Some(t) ==> (cur.txt matches Some(o) ==> o == t))
            &&& c.pco is None && c.bco is None && c.bco2 is None && c.font is None
            &&& !(cur.w == 0 && cur.h == 0 && c.txt is Some)
        },
    }
}

proof fn lemma_component_unchanged(
    c: ComponentSpecModel,
    idx: Seq<(Seq<char>, ScaffoldModel)>,
    data: Seq<u8>,
)
    requires
        asks_nothing_new(c, idx),
    ensures
        compile_component(c, idx, data) == CompileOutcome::Done(data, Seq::empty()),
{
    reveal(compile_component);
    reveal(text_phase);
    reveal(geom_phase);
    reveal(color_phase);
    let e = Seq::<ChangeModel>::empty();
    assert(e + e =~= e);
}

/// Compiling a spec that asks for nothing new against a `.tft` whose header
/// is valid leaves the file as it is and records no change.
pub proof fn lemma_compile_unchanged_when_nothing_new(
    spec: UiSpecModel,
    scaffold: DecodedModel,
    data: Seq<u8>,
)
    requires
        spec_parse_header(data) is Ok,
        forall|i: int|
            0 <= i < spec.components.len() ==> asks_nothing_new(
                #[trigger] spec.components[i],
                spec_scaffold_index(scaffold),
            ),
    ensures
        spec_compile(spec, scaffold, data) == CompileOutcome::Done(data, Seq::empty()),
{
    lemma_compile_from_unchanged(spec.components, spec_scaffold_index(scaffold), data, 0);
}

proof fn lemma_compile_from_unchanged(
    comps: Seq<ComponentSpecModel>,
    idx: Seq<(Seq<char>, ScaffoldModel)>,
    data: Seq<u8>,
    i: int,
)
    requires
        0 <= i,
        forall|k: int| 0 <= k < comps.len() ==> asks_nothing_new(#[trigger] comps[k], idx),
    ensures
        compile_from(comps, idx, data, i) == CompileOutcome::Done(data, Seq::empty()),
    decreases comps.len() - i,
{
    if i < comps.len() {
        lemma_component_unchanged(comps[i], idx, data);
        lemma_compile_from_unchanged(comps, idx, data, i + 1);
        lemma_after_empty(compile_from(comps, idx, data, i + 1));
    }
}

// ---------------------------------------------------------------------------
// The compile pipeline
// ---------------------------------------------------------------------------

/// Whether an exec step did what an outcome says: on completion the file is
/// the outcome's and its changes were appended; on failure the file is the
/// outcome's and the error is returned.
pub open spec fn step_matches(
    o: CompileOutcome,
    d1: Seq<u8>,
    ch0: Seq<ChangeModel>,
    ch1: Seq<ChangeModel>,
    r: Result<(), SpecError>,
) -> bool {
    match o {
        CompileOutcome::Done(d, ch) => r is Ok && d1 == d && ch1 == ch0 + ch,
        CompileOutcome::Failed(d, e) => d1 == d && (r matches Err(e2) && e2@ == e),
        CompileOutcome::Panics => false,
    }
}

/// A step that appended its changes after earlier ones did what the
/// outcome with those earlier changes in front says.
pub proof fn lemma_step_after(
    o: CompileOutcome,
    a: Seq<ChangeModel>,
    d: Seq<u8>,
    c0: Seq<ChangeModel>,
    cf: Seq<ChangeModel>,
    r: Result<(), SpecError>,
)
    requires
        step_matches(o, d, c0 + a, cf, r),
    ensures
        step_matches(after(a, o), d, c0, cf, r),
{
    match o {
        CompileOutcome::Done(d1, ch) => {
            assert((c0 + a) + ch =~= c0 + (a + ch));
        },
        _ => {},
    }
}

fn push_change(changes: &mut Vec<AppliedChange>, objname: &String, field: &str, from: String, to: String)
    ensures
        changes_view(final(changes)@) == changes_view(old(changes)@).push(
            change(objname@, field@, from@, to@),
        ),
{
    let ghost before = changes_view(changes@);
    changes.push(
        AppliedChange { objname: objname.clone(), field: String::from_str(field), from, to },
    );
    assert(changes_view(changes@) =~= before.push(change(objname@, field@, from@, to@)));
}

fn hex06_string(v: u16) -> (s: String)
    ensures
        s@ == hex06(v),
{
    let mut s = String::new();
    s.push('0');
    s.push('x');
    push_hex2(&mut s, (v / 256) as u8);
    push_hex2(&mut s, (v % 256) as u8);
    assert(s@ =~= hex06(v));
    s
}

fn geom_string(g: Geometry) -> (s: String)
    ensures
        s@ == geom_desc(g),
{
    let mut s = String::new();
    push_digits(&mut s, g.0 as u64, 10);
    s.push(',');
    push_digits(&mut s, g.1 as u64, 10);
    s.push(',');
    push_digits(&mut s, g.2 as u64, 10);
    s.push(',');
    push_digits(&mut s, g.3 as u64, 10);
    assert(s@ =~= geom_desc(g));
    s
}

fn target_geometry(c: &ComponentSpec, cur: &ScaffoldComponent) -> (g: Geometry)
    ensures
        g == target_geom(c@, cur@),
{
    (
        match c.x {
            Some(v) => v,
            None => cur.x,
        },
        match c.y {
            Some(v) => v,
            None => cur.y,
        },
        match c.w {
            Some(v) => v,
            None => cur.w,
        },
        match c.h {
            Some(v) => v,
            None => cur.h,
        },
    )
}

#[verifier::spinoff_prover]
fn text_phase_exec(
    c: &ComponentSpec,
    cur: &ScaffoldComponent,
    data: &mut [u8],
    changes: &mut Vec<AppliedChange>,
) -> (r: Result<(), SpecError>)
    ensures
        step_matches(
            text_phase(c@, cur@, old(data)@),
            final(data)@,
            changes_view(old(changes)@),
            changes_view(final(changes)@),
            r,
        ),
        final(data)@.len() == old(data)@.len(),
{
    reveal(text_phase);
    match (&c.txt, &cur.txt) {
        (Some(new_txt), Some(old_txt)) => {
            if !str_eq(old_txt.as_str(), new_txt.as_str()) {
                match tft::patch_text(data, old_txt.as_str(), new_txt.as_str()) {
                    Ok(_) => {},
                    Err(e) => {
                        return Err(SpecError::Tft(e));
                    },
                }
                push_change(changes, &c.objname, "txt", old_txt.clone(), new_txt.clone());
            }
        },
        _ => {},
    }
    proof {
        assert(changes_view(old(changes)@) + Seq::<ChangeModel>::empty() =~= changes_view(
            old(changes)@,
        ));
        assert(changes_view(old(changes)@).push(change(c@.objname, "txt"@, cur@.txt.unwrap_or(Seq::empty()), c@.txt.unwrap_or(Seq::empty())))
            =~= changes_view(old(changes)@) + seq![change(c@.objname, "txt"@, cur@.txt.unwrap_or(Seq::empty()), c@.txt.unwrap_or(Seq::empty()))]);
    }
    Ok(())
}

#[verifier::spinoff_prover]
fn geom_phase_exec(
    c: &ComponentSpec,
    cur: &ScaffoldComponent,
    data: &mut [u8],
    changes: &mut Vec<AppliedChange>,
) -> (r: Option<Result<(), SpecError>>)
    ensures
        match geom_phase(c@, cur@, old(data)@) {
            CompileOutcome::Panics => r is None,
            o => r matches Some(r2) && step_matches(
                o,
                final(data)@,
                changes_view(old(changes)@),
                changes_view(final(changes)@),
                r2,
            ),
        },
        final(data)@.len() == old(data)@.len(),
{
    reveal(geom_phase);
    let cg: Geometry = (cur.x, cur.y, cur.w, cur.h);
    let tg = target_geometry(c, cur);
    let ghost c0 = changes_view(changes@);
    if tg.0 != cg.0 || tg.1 != cg.1 || tg.2 != cg.2 || tg.3 != cg.3 {
        if tft::patch_geom_panics(data, cg, tg, None) {
            return None;
        }
        match tft::patch_geom(data, cg, tg, None) {
            Ok(_) => {},
            Err(e) => {
                return Some(Err(SpecError::Tft(e)));
            },
        }
        let from = geom_string(cg);
        let to = geom_string(tg);
        push_change(changes, &c.objname, "geometry", from, to);
        proof {
            assert(c0.push(change(c@.objname, "geometry"@, geom_desc(cg), geom_desc(tg))) =~= c0
                + seq![change(c@.objname, "geometry"@, geom_desc(cg), geom_desc(tg))]);
        }
    } else {
        assert(c0 + Seq::<ChangeModel>::empty() =~= c0);
    }
    Some(Ok(()))
}

#[verifier::spinoff_prover]
#[verifier::rlimit(40)]
fn color_phase_exec(
    c: &ComponentSpec,
    cur: &ScaffoldComponent,
    data: &mut [u8],
    changes: &mut Vec<AppliedChange>,
) -> (r: Option<Result<(), SpecError>>)
    ensures
        match color_phase(c@, cur@, old(data)@) {
            CompileOutcome::Panics => r is None,
            o => r matches Some(r2) && step_matches(
                o,
                final(data)@,
                changes_view(old(changes)@),
                changes_view(final(changes)@),
                r2,
            ),
        },
        final(data)@.len() == old(data)@.len(),
{
    reveal(color_phase);
    let ghost c0 = changes_view(changes@);
    let ty = &cur.component_type;
    let is_t = str_eq(ty.as_str(), "t");
    let is_b = str_eq(ty.as_str(), "b");
    if c.pco.is_some() && !is_t {
        return Some(
            Err(
                SpecError::ColorFontUnsupportedForType {
                    objname: c.objname.clone(),
                    field: String::from_str("pco"),
                    component_type: ty.clone(),
                },
            ),
        );
    }
    if (c.bco.is_some() || c.bco2.is_some()) && !is_b {
        return Some(
            Err(
                SpecError::ColorFontUnsupportedForType {
                    objname: c.objname.clone(),
                    field: String::from_str("bco/bco2"),
                    component_type: ty.clone(),
                },
            ),
        );
    }
    if c.font.is_some() && !is_t && !is_b {
        return Some(
            Err(
                SpecError::ColorFontUnsupportedForType {
                    objname: c.objname.clone(),
                    field: String::from_str("font"),
                    component_type: ty.clone(),
                },
            ),
        );
    }
    if c.pco.is_some() || c.bco.is_some() || c.bco2.is_some() || c.font.is_some() {
        let tg = target_geometry(c, cur);
        if tft::find_record_panics(data, tg) {
            return None;
        }
        let record_start = match tft::find_text_record_by_geometry(data, tg) {
            Ok(rs) => rs,
            Err(e) => {
                return Some(Err(SpecError::Tft(e)));
            },
        };
        if record_start > usize::MAX - tft::TEXT_RECORD_LEN {
            return None;
        }
        if is_t {
            match tft::patch_component_color_font(data, record_start, c.pco, c.font) {
                Ok(()) => {},
                Err(e) => {
                    return Some(Err(SpecError::Tft(e)));
                },
            }
            match c.pco {
                Some(p) => {
                    push_change(changes, &c.objname, "pco", String::from_str("?"), hex06_string(p));
                },
                None => {},
            }
        } else {
            match tft::patch_button_color_font(data, record_start, c.bco, c.bco2, c.font) {
                Ok(()) => {},
                Err(e) => {
                    return Some(Err(SpecError::Tft(e)));
                },
            }
            match c.bco {
                Some(p) => {
                    push_change(changes, &c.objname, "bco", String::from_str("?"), hex06_string(p));
                },
                None => {},
            }
            match c.bco2 {
                Some(p) => {
                    push_change(changes, &c.objname, "bco2", String::from_str("?"), hex06_string(p));
                },
                None => {},
            }
        }
        match c.font {
            Some(f) => {
                let mut to = String::new();
                push_digits(&mut to, f as u64, 10);
                push_change(changes, &c.objname, "font", String::from_str("?"), to);
            },
            None => {},
        }
        proof {
            let pco_ch = color_change(c@.objname, "pco"@, c@.pco);
            let bco_ch = color_change(c@.objname, "bco"@, c@.bco);
            let bco2_ch = color_change(c@.objname, "bco2"@, c@.bco2);
            let font_ch = font_change(c@.objname, c@.font);
            if is_t {
                assert(changes_view(changes@) =~= c0 + (pco_ch + font_ch));
            } else {
                assert(changes_view(changes@) =~= c0 + (bco_ch + bco2_ch + font_ch));
            }
        }
    } else {
        assert(c0 + Seq::<ChangeModel>::empty() =~= c0);
    }
    Some(Ok(()))
}

/// One component of the pipeline; `None` where compiling it would panic.
#[verifier::spinoff_prover]
fn compile_one(
    c: &ComponentSpec,
    index: &Vec<(String, ScaffoldComponent)>,
    data: &mut [u8],
    changes: &mut Vec<AppliedChange>,
) -> (r: Option<Result<(), SpecError>>)
    ensures
        match compile_component(c@, index_view(index@), old(data)@) {
            CompileOutcome::Panics => r is None,
            o => r matches Some(r2) && step_matches(
                o,
                final(data)@,
                changes_view(old(changes)@),
                changes_view(final(changes)@),
                r2,
            ),
        },
        final(data)@.len() == old(data)@.len(),
{
    reveal(compile_component);
    let ghost c0 = changes_view(changes@);
    let current = match lookup(index, &c.objname) {
        Some(cur) => cur,
        None => {
            return Some(Err(SpecError::ComponentNotInScaffold { objname: c.objname.clone() }));
        },
    };
    let tg = target_geometry(c, current);
    let changed = tg.0 != current.x || tg.1 != current.y || tg.2 != current.w || tg.3 != current.h;
    if current.w == 0 && current.h == 0 && (changed || c.txt.is_some()) {
        return Some(Err(SpecError::MissingScaffoldGeometry { objname: c.objname.clone() }));
    }
    let ghost d0 = data@;
    match text_phase_exec(c, current, data, changes) {
        Ok(()) => {},
        Err(e) => {
            return Some(Err(e));
        },
    }
    let ghost d1 = data@;
    let ghost c1 = changes_view(changes@);
    match geom_phase_exec(c, current, data, changes) {
        Some(Ok(())) => {},
        Some(Err(e)) => {
            return Some(Err(e));
        },
        None => {
            return None;
        },
    }
    let ghost d2 = data@;
    let ghost c2 = changes_view(changes@);
    let r = match color_phase_exec(c, current, data, changes) {
        Some(r) => r,
        None => {
            return None;
        },
    };
    proof {
        let t = text_phase(c@, current@, d0);
        let g = geom_phase(c@, current@, d1);
        if let CompileOutcome::Done(_, ch1) = t {
            if let CompileOutcome::Done(_, ch2) = g {
                let o3 = color_phase(c@, current@, d2);
                lemma_step_after(o3, ch2, data@, c1, changes_view(changes@), r);
                lemma_step_after(after(ch2, o3), ch1, data@, c0, changes_view(changes@), r);
            }
        }
    }
    Some(r)
}

/// Run the `compile` pipeline: patch `scaffold_tft_data` in place so it
/// matches `spec`, using `scaffold_hmi` (already decoded) to resolve each
/// spec component's current geometry/type/text.
#[verifier::spinoff_prover]
pub fn compile(
    spec: &UiSpec,
    scaffold_hmi: &Decoded,
    scaffold_tft_data: &mut [u8],
    target: Target,
) -> (r: Result<Vec<AppliedChange>, SpecError>)
    requires
        !(spec_compile(spec@, scaffold_hmi@, old(scaffold_tft_data)@) is Panics),
    ensures
        match spec_compile(spec@, scaffold_hmi@, old(scaffold_tft_data)@) {
            CompileOutcome::Done(d, ch) => final(scaffold_tft_data)@ == d && (r matches Ok(v)
                && changes_view(v@) == ch),
            CompileOutcome::Failed(d, e) => final(scaffold_tft_data)@ == d && (r matches Err(e2)
                && e2@ == e),
            CompileOutcome::Panics => false,
        },
        final(scaffold_tft_data)@.len() == old(scaffold_tft_data)@.len(),
{
    match tft::parse_header(scaffold_tft_data, target) {
        Ok(_) => {},
        Err(e) => {
            return Err(SpecError::Tft(e));
        },
    }
    let index = index_scaffold(scaffold_hmi);
    let ghost idx = index_view(index@);
    let ghost comps = specs_view(spec.components@);
    let ghost total = spec_compile(spec@, scaffold_hmi@, scaffold_tft_data@);
    let mut changes: Vec<AppliedChange> = Vec::new();
    let mut i: usize = 0;
    proof {
        lemma_after_empty(compile_from(comps, idx, scaffold_tft_data@, 0));
        assert(changes_view(changes@) =~= Seq::<ChangeModel>::empty());
    }
    while i < spec.components.len()
        invariant
            i <= spec.components@.len(),
            comps == specs_view(spec.components@),
            idx == index_view(index@),
            !(total is Panics),
            total == spec_compile(spec@, scaffold_hmi@, old(scaffold_tft_data)@),
            total == after(changes_view(changes@), compile_from(comps, idx, scaffold_tft_data@, i as int)),
            scaffold_tft_data@.len() == old(scaffold_tft_data)@.len(),
        decreases spec.components@.len() - i,
    {
        let c = &spec.components[i];
        let ghost d0 = scaffold_tft_data@;
        let ghost c0 = changes_view(changes@);
        proof {
            assert(comps[i as int] == c@);
        }
        let r = compile_one(c, &index, scaffold_tft_data, &mut changes);
        match r {
            Some(Ok(())) => {},
            None => {
                proof {
                    assert(compile_from(comps, idx, d0, i as int) == compile_component(c@, idx, d0));
                    assert(false);
                }
                return Err(SpecError::ComponentNotInScaffold { objname: c.objname.clone() });
            },
            Some(Err(e)) => {
                proof {
                    let o = compile_component(c@, idx, d0);
                    assert(o is Failed);
                    assert(compile_from(comps, idx, d0, i as int) == o);
                }
                return Err(e);
            },
        }
        proof {
            if let CompileOutcome::Done(d1, ch) = compile_component(c@, idx, d0) {
                lemma_after_after(c0, ch, compile_from(comps, idx, d1, i + 1));
            }
        }
        i = i + 1;
    }
    proof {
        lemma_after_empty(CompileOutcome::Done(scaffold_tft_data@, Seq::empty()));
        assert(changes_view(changes@) + Seq::<ChangeModel>::empty() =~= changes_view(changes@));
    }
    Ok(changes)
}

/// Whether `compile` would panic on these arguments: where a geometry
/// change would overflow the new `endx`/`endy` or the quad found lies at
/// the very end of the file, or where a located record would start before
/// the file does. Runs the pipeline on a copy of the file to find out.
#[verifier::spinoff_prover]
pub fn compile_panics(spec: &UiSpec, scaffold_hmi: &Decoded, scaffold_tft_data: &[u8]) -> (r: bool)
    ensures
        r == (spec_compile(spec@, scaffold_hmi@, scaffold_tft_data@) is Panics),
{
    match tft::parse_header(scaffold_tft_data, Target::Nx8048p050011rY) {
        Ok(_) => {},
        Err(_) => {
            return false;
        },
    }
    let mut data = vstd::slice::slice_to_vec(scaffold_tft_data);
    let index = index_scaffold(scaffold_hmi);
    let ghost idx = index_view(index@);
    let ghost comps = specs_view(spec.components@);
    let ghost total = spec_compile(spec@, scaffold_hmi@, scaffold_tft_data@);
    let mut changes: Vec<AppliedChange> = Vec::new();
    let mut i: usize = 0;
    proof {
        lemma_after_empty(compile_from(comps, idx, data@, 0));
        assert(changes_view(changes@) =~= Seq::<ChangeModel>::empty());
    }
    while i < spec.components.len()
        invariant
            i <= spec.components@.len(),
            comps == specs_view(spec.components@),
            idx == index_view(index@),
            total == spec_compile(spec@, scaffold_hmi@, scaffold_tft_data@),
            total == after(changes_view(changes@), compile_from(comps, idx, data@, i as int)),
        decreases spec.components@.len() - i,
    {
        let c = &spec.components[i];
        let ghost d0 = data@;
        let ghost c0 = changes_view(changes@);
        proof {
            assert(comps[i as int] == c@);
        }
        let r = compile_one(c, &index, data.as_mut_slice(), &mut changes);
        match r {
            Some(Ok(())) => {},
            None => {
                proof {
                    assert(compile_from(comps, idx, d0, i as int) == compile_component(c@, idx, d0));
                }
                return true;
            },
            Some(Err(_)) => {
                proof {
                    assert(compile_from(comps, idx, d0, i as int) == compile_component(c@, idx, d0));
                }
                return false;
            },
        }
        proof {
            if let CompileOutcome::Done(d1, ch) = compile_component(c@, idx, d0) {
                lemma_after_after(c0, ch, compile_from(comps, idx, d1, i + 1));
            }
        }
        i = i + 1;
    }
    false
}

} // verus!
