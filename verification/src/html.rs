//! Render a UI spec as a static HTML page, for previewing a layout in a
//! browser before committing to hardware or toolchain work.
//!
//! This is a second, independent consumer of the same spec data `compile`
//! uses: it needs no scaffold and never touches the Nextion formats. Each
//! component's `x/y/w/h/txt/type/bco/pco` map directly to an
//! absolutely-positioned `<div>`. Styling is deliberately crude -- this is a
//! layout/spacing check, not a visual mockup.

use vstd::prelude::*;

use crate::spec::{ComponentSpec, ComponentSpecModel, UiSpec};
use crate::strings::{chars_of, dec, push_digits, str_eq};

verus! {

/// The page's style sheet.
pub const STYLE: &'static str = "\nbody {\n  margin: 20px;\n  background: #808080;\n  font-family: \"MS Sans Serif\", Tahoma, sans-serif;\n}\n.screen {\n  position: relative;\n  background: #000000;\n  overflow: hidden;\n  outline: 2px solid #000000;\n}\n.comp {\n  position: absolute;\n  box-sizing: border-box;\n  display: flex;\n  align-items: center;\n  justify-content: center;\n  overflow: hidden;\n  font-size: 14px;\n  color: #000000;\n  white-space: nowrap;\n  text-overflow: ellipsis;\n}\n.comp-t {\n  background: transparent;\n  color: #ffffff;\n  justify-content: flex-start;\n}\n.comp-b {\n  background: #c0c0c0;\n  border: 2px outset #c0c0c0;\n}\n.comp-b:active {\n  border-style: inset;\n}\n.comp-m {\n  background: rgba(255, 0, 0, 0\x2e15);\n  border: 1px dashed #ff0000;\n  color: #ff0000;\n  font-size: 10px;\n}\n";

/// The characters an HTML-escaped character becomes: `&`, `<`, `>` and `"`
/// are replaced by their entities.
pub open spec fn escape_char(c: char) -> Seq<char> {
    if c == '&' {
        "&amp;"@
    } else if c == '<' {
        "&lt;"@
    } else if c == '>' {
        "&gt;"@
    } else if c == '"' {
        "&quot;"@
    } else {
        seq![c]
    }
}

/// `s` HTML-escaped, character by character.
pub open spec fn html_escaped(s: Seq<char>) -> Seq<char>
    decreases s.len(),
{
    if s.len() == 0 {
        Seq::empty()
    } else {
        html_escaped(s.drop_last()) + escape_char(s.last())
    }
}

/// Escaped text holds no `<`, `>` or `"`: it can neither open nor close a
/// tag, nor end a quoted attribute value.
pub proof fn lemma_escaped_has_no_markup(s: Seq<char>)
    ensures
        forall|i: int|
            0 <= i < html_escaped(s).len() ==> #[trigger] html_escaped(s)[i] != '<'
                && html_escaped(s)[i] != '>' && html_escaped(s)[i] != '"',
    decreases s.len(),
{
    reveal_strlit("&amp;");
    reveal_strlit("&lt;");
    reveal_strlit("&gt;");
    reveal_strlit("&quot;");
    if s.len() > 0 {
        lemma_escaped_has_no_markup(s.drop_last());
        let a = html_escaped(s.drop_last());
        let b = escape_char(s.last());
        assert forall|i: int| 0 <= i < (a + b).len() implies #[trigger] (a + b)[i] != '<' && (a
            + b)[i] != '>' && (a + b)[i] != '"' by {
            if i < a.len() {
                assert((a + b)[i] == a[i]);
            } else {
                assert((a + b)[i] == b[i - a.len()]);
            }
        }
    }
}

/// Escaped text read back: `&amp;`, `&lt;`, `&gt;` and `&quot;` each
/// become their character again, read left to right; every other character
/// stays as it is.
pub open spec fn html_unescaped(t: Seq<char>) -> Seq<char>
    decreases t.len(),
{
    if t.len() == 0 {
        Seq::empty()
    } else if t.len() >= 5 && t.subrange(0, 5) == "&amp;"@ {
        seq!['&'] + html_unescaped(t.subrange(5, t.len() as int))
    } else if t.len() >= 4 && t.subrange(0, 4) == "&lt;"@ {
        seq!['<'] + html_unescaped(t.subrange(4, t.len() as int))
    } else if t.len() >= 4 && t.subrange(0, 4) == "&gt;"@ {
        seq!['>'] + html_unescaped(t.subrange(4, t.len() as int))
    } else if t.len() >= 6 && t.subrange(0, 6) == "&quot;"@ {
        seq!['"'] + html_unescaped(t.subrange(6, t.len() as int))
    } else {
        seq![t[0]] + html_unescaped(t.drop_first())
    }
}

proof fn lemma_escaped_front(s: Seq<char>)
    requires
        s.len() > 0,
    ensures
        html_escaped(s) == escape_char(s[0]) + html_escaped(s.drop_first()),
    decreases s.len(),
{
    if s.len() == 1 {
        assert(s.drop_last() =~= Seq::<char>::empty());
        assert(s.drop_first() =~= Seq::<char>::empty());
        assert(escape_char(s[0]) + Seq::<char>::empty() =~= escape_char(s[0]));
        assert(Seq::<char>::empty() + escape_char(s[0]) =~= escape_char(s[0]));
    } else {
        lemma_escaped_front(s.drop_last());
        assert(s.drop_last().drop_first() =~= s.drop_first().drop_last());
        assert(s.drop_last()[0] == s[0]);
        assert(s.drop_first().last() == s.last());
        let a = escape_char(s[0]);
        let m = html_escaped(s.drop_first().drop_last());
        let z = escape_char(s.last());
        assert((a + m) + z =~= a + (m + z));
    }
}

proof fn lemma_unescape_one(c: char, rest: Seq<char>)
    ensures
        html_unescaped(escape_char(c) + rest) == seq![c] + html_unescaped(rest),
{
    reveal_strlit("&amp;");
    reveal_strlit("&lt;");
    reveal_strlit("&gt;");
    reveal_strlit("&quot;");
    let t = escape_char(c) + rest;
    if c == '&' {
        assert(t.subrange(0, 5) =~= "&amp;"@);
        assert(t.subrange(5, t.len() as int) =~= rest);
    } else if c == '<' {
        if t.len() >= 5 {
            assert(t.subrange(0, 5)[1] != "&amp;"@[1]);
        }
        assert(t.subrange(0, 4) =~= "&lt;"@);
        assert(t.subrange(4, t.len() as int) =~= rest);
    } else if c == '>' {
        if t.len() >= 5 {
            assert(t.subrange(0, 5)[1] != "&amp;"@[1]);
        }
        assert(t.subrange(0, 4)[1] != "&lt;"@[1]);
        assert(t.subrange(0, 4) =~= "&gt;"@);
        assert(t.subrange(4, t.len() as int) =~= rest);
    } else if c == '"' {
        assert(t.subrange(0, 5)[1] != "&amp;"@[1]);
        assert(t.subrange(0, 4)[1] != "&lt;"@[1]);
        assert(t.subrange(0, 4)[1] != "&gt;"@[1]);
        assert(t.subrange(0, 6) =~= "&quot;"@);
        assert(t.subrange(6, t.len() as int) =~= rest);
    } else {
        assert(t[0] == c);
        if t.len() >= 5 {
            assert(t.subrange(0, 5)[0] != "&amp;"@[0]);
        }
        if t.len() >= 4 {
            assert(t.subrange(0, 4)[0] != "&lt;"@[0]);
            assert(t.subrange(0, 4)[0] != "&gt;"@[0]);
        }
        if t.len() >= 6 {
            assert(t.subrange(0, 6)[0] != "&quot;"@[0]);
        }
        assert(t.drop_first() =~= rest);
    }
}

/// Escaping loses nothing: reading the escaped text back gives the text.
pub proof fn lemma_escape_roundtrip(s: Seq<char>)
    ensures
        html_unescaped(html_escaped(s)) == s,
    decreases s.len(),
{
    if s.len() > 0 {
        lemma_escaped_front(s);
        lemma_unescape_one(s[0], html_escaped(s.drop_first()));
        lemma_escape_roundtrip(s.drop_first());
        assert(seq![s[0]] + s.drop_first() =~= s);
    }
}

/// Appends `s` HTML-escaped.
fn push_escaped(out: &mut String, s: &str)
    ensures
        final(out)@ == old(out)@ + html_escaped(s@),
{
    let cs = chars_of(s);
    let ghost start = out@;
    let mut i: usize = 0;
    while i < cs.len()
        invariant
            i <= cs@.len(),
            cs@ == s@,
            out@ == start + html_escaped(cs@.subrange(0, i as int)),
        decreases cs@.len() - i,
    {
        let c = cs[i];
        let ghost before = out@;
        if c == '&' {
            out.append("&amp;");
        } else if c == '<' {
            out.append("&lt;");
        } else if c == '>' {
            out.append("&gt;");
        } else if c == '"' {
            out.append("&quot;");
        } else {
            out.push(c);
        }
        proof {
            assert(out@ =~= before + escape_char(c));
            assert(cs@.subrange(0, i + 1).drop_last() =~= cs@.subrange(0, i as int));
        }
        i = i + 1;
    }
    assert(cs@.subrange(0, cs@.len() as int) =~= cs@);
}

/// Replace `&`, `<`, `>` and `"` by their HTML entities.
pub fn html_escape(s: &str) -> (r: String)
    ensures
        r@ == html_escaped(s@),
{
    let mut out = String::new();
    push_escaped(&mut out, s);
    out
}

/// Red channel of an RGB565 colour, expanded to 8 bits by replicating its
/// high bits into the low bits.
pub open spec fn red8(color: u16) -> u16 {
    let r5 = (color >> 11u16) & 0x1fu16;
    (r5 << 3u16) | (r5 >> 2u16)
}

/// Green channel of an RGB565 colour, expanded to 8 bits.
pub open spec fn green8(color: u16) -> u16 {
    let g6 = (color >> 5u16) & 0x3fu16;
    (g6 << 2u16) | (g6 >> 4u16)
}

/// Blue channel of an RGB565 colour, expanded to 8 bits.
pub open spec fn blue8(color: u16) -> u16 {
    let b5 = color & 0x1fu16;
    (b5 << 3u16) | (b5 >> 2u16)
}

/// The CSS `rgb(r,g,b)` of an RGB565 colour.
pub open spec fn css_rgb(color: u16) -> Seq<char> {
    "rgb("@ + dec(red8(color) as nat) + seq![','] + dec(green8(color) as nat) + seq![',']
        + dec(blue8(color) as nat) + seq![')']
}

/// Nextion colors are RGB565 (5 bits red, 6 bits green, 5 bits blue, packed
/// into a u16) -- convert to an 8-bit-per-channel CSS `rgb()`.
pub fn rgb565_to_css(color: u16) -> (s: String)
    ensures
        s@ == css_rgb(color),
{
    let r5 = (color >> 11u16) & 0x1fu16;
    let g6 = (color >> 5u16) & 0x3fu16;
    let b5 = color & 0x1fu16;
    let r = (r5 << 3u16) | (r5 >> 2u16);
    let g = (g6 << 2u16) | (g6 >> 4u16);
    let b = (b5 << 3u16) | (b5 >> 2u16);
    let mut s = String::from_str("rgb(");
    push_digits(&mut s, r as u64, 10);
    s.push(',');
    push_digits(&mut s, g as u64, 10);
    s.push(',');
    push_digits(&mut s, b as u64, 10);
    s.push(')');
    assert(s@ =~= css_rgb(color));
    s
}

/// Each expanded channel is the channel scaled to 0..=255: its bits moved
/// up, with its top bits repeated below them, so the smallest value maps to
/// 0 and the largest to 255.
pub proof fn lemma_rgb565_expansion(color: u16)
    ensures
        red8(color) == ((color >> 11u16) & 0x1fu16) * 8 + ((color >> 11u16) & 0x1fu16) / 4,
        green8(color) == ((color >> 5u16) & 0x3fu16) * 4 + ((color >> 5u16) & 0x3fu16) / 16,
        blue8(color) == (color & 0x1fu16) * 8 + (color & 0x1fu16) / 4,
        red8(color) <= 255 && green8(color) <= 255 && blue8(color) <= 255,
        red8(0) == 0 && green8(0) == 0 && blue8(0) == 0,
        red8(0xffff) == 255 && green8(0xffff) == 255 && blue8(0xffff) == 255,
{
    assert(((color >> 11u16) & 0x1fu16) << 3u16 | ((color >> 11u16) & 0x1fu16) >> 2u16 == ((color
        >> 11u16) & 0x1fu16) * 8 + ((color >> 11u16) & 0x1fu16) / 4) by (bit_vector);
    assert(((color >> 5u16) & 0x3fu16) << 2u16 | ((color >> 5u16) & 0x3fu16) >> 4u16 == ((color
        >> 5u16) & 0x3fu16) * 4 + ((color >> 5u16) & 0x3fu16) / 16) by (bit_vector);
    assert((color & 0x1fu16) << 3u16 | (color & 0x1fu16) >> 2u16 == (color & 0x1fu16) * 8 + (color
        & 0x1fu16) / 4) by (bit_vector);
    assert(((color >> 11u16) & 0x1fu16) <= 31) by (bit_vector);
    assert(((color >> 5u16) & 0x3fu16) <= 63) by (bit_vector);
    assert((color & 0x1fu16) <= 31) by (bit_vector);
    assert(red8(0) == 0 && green8(0) == 0 && blue8(0) == 0) by (bit_vector);
    assert(red8(0xffff) == 255 && green8(0xffff) == 255 && blue8(0xffff) == 255) by (bit_vector);
}

/// A component's type: the spec's, or `t` if it gives none.
pub open spec fn comp_type(c: ComponentSpecModel) -> Seq<char> {
    match c.component_type {
        Some(t) => t,
        None => "t"@,
    }
}

/// The CSS class for a component type.
pub open spec fn type_class(t: Seq<char>) -> Seq<char> {
    if t == "b"@ {
        "comp-b"@
    } else if t == "m"@ {
        "comp-m"@
    } else {
        "comp-t"@
    }
}

/// An optional coordinate, or the default.
pub open spec fn or_default(v: Option<u16>, d: u16) -> u16 {
    match v {
        Some(x) => x,
        None => d,
    }
}

/// A component's inline style: its position and size (defaulting to a
/// small box at the origin), then its colours unless it is a hotspot.
pub open spec fn comp_style(c: ComponentSpecModel) -> Seq<char> {
    let geom = "left:"@ + dec(or_default(c.x, 0) as nat) + "px;top:"@ + dec(
        or_default(c.y, 0) as nat,
    ) + "px;width:"@ + dec(or_default(c.w, 40) as nat) + "px;height:"@ + dec(
        or_default(c.h, 20) as nat,
    ) + "px;"@;
    if comp_type(c) != "m"@ {
        geom + (match c.bco {
            Some(b) => "background:"@ + css_rgb(b) + seq![';'],
            None => Seq::empty(),
        }) + (match c.pco {
            Some(p) => "color:"@ + css_rgb(p) + seq![';'],
            None => Seq::empty(),
        })
    } else {
        geom
    }
}

/// A component's label: a hotspot shows its object name, anything else its
/// text (or nothing).
pub open spec fn comp_label(c: ComponentSpecModel) -> Seq<char> {
    if comp_type(c) == "m"@ {
        c.objname
    } else {
        match c.txt {
            Some(t) => t,
            None => Seq::empty(),
        }
    }
}

/// One component's `<div>` line.
pub open spec fn component_html(c: ComponentSpecModel) -> Seq<char> {
    "  <div class=\"comp "@ + type_class(comp_type(c)) + "\" style=\""@ + comp_style(c)
        + "\" title=\""@ + html_escaped(c.objname) + "\">"@ + html_escaped(comp_label(c))
        + "</div>\n"@
}

/// The defaults of a component's rendering: a missing `x` or `y` renders
/// as 0, a missing `w` as 40, a missing `h` as 20, and a missing type as a
/// text component (`t`). A hotspot (`m`) shows its object name, whatever
/// its text and colours; any other component shows its text, or nothing.
pub proof fn lemma_component_rendering(c: ComponentSpecModel)
    ensures
        c.x is None ==> component_html(c) == component_html(
            ComponentSpecModel { x: Some(0u16), ..c },
        ),
        c.y is None ==> component_html(c) == component_html(
            ComponentSpecModel { y: Some(0u16), ..c },
        ),
        c.w is None ==> component_html(c) == component_html(
            ComponentSpecModel { w: Some(40u16), ..c },
        ),
        c.h is None ==> component_html(c) == component_html(
            ComponentSpecModel { h: Some(20u16), ..c },
        ),
        c.component_type is None ==> component_html(c) == component_html(
            ComponentSpecModel { component_type: Some("t"@), ..c },
        ),
        c.component_type == Some("m"@) ==> component_html(c) == component_html(
            ComponentSpecModel { txt: None, pco: None, bco: None, ..c },
        ) && comp_label(c) == c.objname,
        c.component_type != Some("m"@) && c.component_type is Some ==> comp_label(c) == (match c.txt {
            Some(t) => t,
            None => Seq::<char>::empty(),
        }),
{
    reveal_strlit("t");
    reveal_strlit("m");
}

fn push_dec(s: &mut String, v: u16)
    ensures
        final(s)@ == old(s)@ + dec(v as nat),
{
    push_digits(s, v as u64, 10);
}

fn geometry_style(comp: &ComponentSpec) -> (style: String)
    ensures
        style@ == "left:"@ + dec(or_default(comp@.x, 0) as nat) + "px;top:"@ + dec(
            or_default(comp@.y, 0) as nat,
        ) + "px;width:"@ + dec(or_default(comp@.w, 40) as nat) + "px;height:"@ + dec(
            or_default(comp@.h, 20) as nat,
        ) + "px;"@,
{
    let x = match comp.x {
        Some(v) => v,
        None => 0,
    };
    let y = match comp.y {
        Some(v) => v,
        None => 0,
    };
    let w = match comp.w {
        Some(v) => v,
        None => 40,
    };
    let h = match comp.h {
        Some(v) => v,
        None => 20,
    };
    let mut style = String::from_str("left:");
    push_dec(&mut style, x);
    style.append("px;top:");
    push_dec(&mut style, y);
    style.append("px;width:");
    push_dec(&mut style, w);
    style.append("px;height:");
    push_dec(&mut style, h);
    style.append("px;");
    style
}

fn push_color(style: &mut String, prop: &str, color: Option<u16>)
    ensures
        final(style)@ == old(style)@ + match color {
            Some(c) => prop@ + css_rgb(c) + seq![';'],
            None => Seq::empty(),
        },
{
    let ghost start = style@;
    match color {
        Some(c) => {
            style.append(prop);
            let css = rgb565_to_css(c);
            style.append(css.as_str());
            style.push(';');
            assert(style@ =~= start + (prop@ + css_rgb(c) + seq![';']));
        },
        None => {
            assert(style@ =~= start + Seq::<char>::empty());
        },
    }
}

fn component_kind(comp: &ComponentSpec) -> (r: (bool, bool))
    ensures
        r.0 == (comp_type(comp@) == "b"@),
        r.1 == (comp_type(comp@) == "m"@),
{
    let ct: &str = match &comp.component_type {
        Some(t) => t.as_str(),
        None => "t",
    };
    (str_eq(ct, "b"), str_eq(ct, "m"))
}

fn component_style(comp: &ComponentSpec, is_m: bool) -> (style: String)
    requires
        is_m == (comp_type(comp@) == "m"@),
    ensures
        style@ == comp_style(comp@),
{
    let mut style = geometry_style(comp);
    if !is_m {
        push_color(&mut style, "background:", comp.bco);
        push_color(&mut style, "color:", comp.pco);
    }
    style
}

fn render_component(comp: &ComponentSpec) -> (out: String)
    ensures
        out@ == component_html(comp@),
{
    let (is_b, is_m) = component_kind(comp);
    let class: &str = if is_b {
        "comp-b"
    } else if is_m {
        "comp-m"
    } else {
        "comp-t"
    };
    assert(class@ == type_class(comp_type(comp@)));
    let style = component_style(comp, is_m);
    let label: &str = if is_m {
        comp.objname.as_str()
    } else {
        match &comp.txt {
            Some(t) => t.as_str(),
            None => "",
        }
    };
    proof {
        reveal_strlit("");
        assert(label@ == comp_label(comp@));
    }
    let mut out = String::from_str("  <div class=\"comp ");
    out.append(class);
    out.append("\" style=\"");
    out.append(style.as_str());
    out.append("\" title=\"");
    push_escaped(&mut out, comp.objname.as_str());
    out.append("\">");
    push_escaped(&mut out, label);
    out.append("</div>\n");
    assert(out@ =~= component_html(comp@));
    out
}

/// The components' `<div>` lines, in order.
pub open spec fn components_html(cs: Seq<ComponentSpecModel>) -> Seq<char>
    decreases cs.len(),
{
    if cs.len() == 0 {
        Seq::empty()
    } else {
        components_html(cs.drop_last()) + component_html(cs.last())
    }
}

/// The whole document for a spec whose page is titled `title`; the screen is
/// always 800x480, the only supported target's size (also the size used
/// when the spec's target is not recognized).
pub open spec fn page_html(title: Seq<char>, comps: Seq<ComponentSpecModel>) -> Seq<char> {
    "<!DOCTYPE html>\n<html lang=\"en\">\n<head>\n<meta charset=\"UTF-8\">\n<title>"@
        + html_escaped(title) + " -- layout preview</title>\n<style>\n"@ + STYLE@
        + "\n</style>\n</head>\n<body>\n<div class=\"screen\" style=\"width:"@ + dec(800)
        + "px;height:"@ + dec(480) + "px;\">\n"@ + components_html(comps)
        + "</div>\n</body>\n</html>\n"@
}

/// Render `spec` as a complete, self-contained HTML document sized to the
/// spec's target resolution.
pub fn render(spec: &UiSpec) -> (html: String)
    ensures
        html@ == page_html(spec@.page, spec@.components),
{
    let (width, height): (u16, u16) = match spec.target() {
        Ok(t) => (t.width(), t.height()),
        Err(_) => (800, 480),
    };
    let ghost comps = spec@.components;
    let mut body = String::new();
    let mut i: usize = 0;
    while i < spec.components.len()
        invariant
            i <= spec.components@.len(),
            comps == spec@.components,
            body@ == components_html(comps.take(i as int)),
        decreases spec.components@.len() - i,
    {
        let line = render_component(&spec.components[i]);
        body.append(line.as_str());
        proof {
            assert(comps[i as int] == spec.components@[i as int]@);
            assert(comps.take(i + 1).drop_last() =~= comps.take(i as int));
        }
        i = i + 1;
    }
    assert(comps.take(comps.len() as int) =~= comps);
    let mut out = String::from_str(
        "<!DOCTYPE html>\n<html lang=\"en\">\n<head>\n<meta charset=\"UTF-8\">\n<title>",
    );
    push_escaped(&mut out, spec.page.as_str());
    out.append(" -- layout preview</title>\n<style>\n");
    out.append(STYLE);
    out.append("\n</style>\n</head>\n<body>\n<div class=\"screen\" style=\"width:");
    push_dec(&mut out, width);
    out.append("px;height:");
    push_dec(&mut out, height);
    out.append("px;\">\n");
    out.append(body.as_str());
    out.append("</div>\n</body>\n</html>\n");
    assert(out@ =~= page_html(spec@.page, spec@.components));
    out
}

} // verus!
