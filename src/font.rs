//! Glyph metrics: heights, widths, margins and the tallest glyph of a font,
//! each computed from the bounding boxes of glyph outlines. An outline that
//! cannot be parsed or replayed contributes nothing.

use crate::bounds::{BoxModel, Bounds};
use crate::coord::{number_limit, number_value, parse_number, Coord};
use crate::xml::{read_xml_nodes, xml_nodes, AttributeModel, NodeModel, XmlAttribute, XmlNode};
use crate::path::{chars_of, coord_bound, parse_path, replay, Path};
use vstd::prelude::*;

verus! {

/// One glyph: its character, horizontal advance and outline path data.
#[derive(Debug)]
pub struct Glyph {
    pub unicode: char,
    pub horizontal_advance_x: Coord,
    pub path: String,
}

/// The mathematical value of a [`Glyph`].
pub ghost struct GlyphModel {
    pub unicode: char,
    pub advance: int,
    pub path: Seq<char>,
}

impl View for Glyph {
    type V = GlyphModel;

    open spec fn view(&self) -> GlyphModel {
        GlyphModel {
            unicode: self.unicode,
            advance: self.horizontal_advance_x as int,
            path: self.path@,
        }
    }
}

/// The mathematical value of a [`Font`].
pub ghost struct FontModel {
    pub advance: int,
    pub units_per_em: int,
    pub ascent: int,
    pub descent: int,
    pub glyphs: Seq<GlyphModel>,
}

/// The box of an outline, or `None` when it cannot be parsed or replayed.
pub open spec fn outline_box(path: Seq<char>) -> Option<BoxModel> {
    match parse_path(path) {
        Ok(cs) => match replay(cs) {
            Ok(b) => Some(b),
            Err(_) => None,
        },
        Err(_) => None,
    }
}

pub open spec fn min_int(a: int, b: int) -> int {
    if a <= b {
        a
    } else {
        b
    }
}

pub open spec fn max_int(a: int, b: int) -> int {
    if a >= b {
        a
    } else {
        b
    }
}

/// The lowest and highest `y` corner of the outlines, both seeded at 0.
pub open spec fn vertical_extent(paths: Seq<Seq<char>>) -> (int, int)
    decreases paths.len(),
{
    if paths.len() == 0 {
        (0, 0)
    } else {
        let (lo, hi) = vertical_extent(paths.drop_last());
        match outline_box(paths.last()) {
            Some(b) => (min_int(min_int(lo, b.y1), b.y2), max_int(max_int(hi, b.y1), b.y2)),
            None => (lo, hi),
        }
    }
}

/// The distance between the lowest and the highest `y` corner.
pub open spec fn vertical_span(paths: Seq<Seq<char>>) -> int {
    vertical_extent(paths).1 - vertical_extent(paths).0
}

/// The first glyph of character `c` from index `i` on.
pub open spec fn find_glyph_from(glyphs: Seq<GlyphModel>, c: char, i: int) -> Option<GlyphModel>
    decreases glyphs.len() - i,
{
    if i < 0 || i >= glyphs.len() {
        None
    } else if glyphs[i].unicode == c {
        Some(glyphs[i])
    } else {
        find_glyph_from(glyphs, c, i + 1)
    }
}

/// The first glyph of character `c`.
pub open spec fn find_glyph(glyphs: Seq<GlyphModel>, c: char) -> Option<GlyphModel> {
    find_glyph_from(glyphs, c, 0)
}

/// The outlines of the glyphs found for the characters of `text`.
pub open spec fn text_outlines(glyphs: Seq<GlyphModel>, text: Seq<char>) -> Seq<Seq<char>>
    decreases text.len(),
{
    if text.len() == 0 {
        Seq::empty()
    } else {
        let rest = text_outlines(glyphs, text.drop_last());
        match find_glyph(glyphs, text.last()) {
            Some(g) => rest.push(g.path),
            None => rest,
        }
    }
}

/// The sum of the advances of the glyphs found for the characters of `text`.
pub open spec fn advance_sum(glyphs: Seq<GlyphModel>, text: Seq<char>) -> int
    decreases text.len(),
{
    if text.len() == 0 {
        0
    } else {
        advance_sum(glyphs, text.drop_last()) + match find_glyph(glyphs, text.last()) {
            Some(g) => g.advance,
            None => 0,
        }
    }
}

/// The `x1` of the first character of `text[i..]` whose glyph has a box,
/// or 0.
pub open spec fn left_margin_from(glyphs: Seq<GlyphModel>, text: Seq<char>, i: int) -> int
    decreases text.len() - i,
{
    if i < 0 || i >= text.len() {
        0
    } else {
        match find_glyph(glyphs, text[i]) {
            Some(g) => match outline_box(g.path) {
                Some(b) => b.x1,
                None => left_margin_from(glyphs, text, i + 1),
            },
            None => left_margin_from(glyphs, text, i + 1),
        }
    }
}

/// The `x1` of the first character of `text` whose glyph has a box, or 0.
pub open spec fn left_margin(glyphs: Seq<GlyphModel>, text: Seq<char>) -> int {
    left_margin_from(glyphs, text, 0)
}

/// The outlines of a sequence of glyphs.
pub open spec fn outlines(glyphs: Seq<GlyphModel>) -> Seq<Seq<char>> {
    glyphs.map_values(|g: GlyphModel| g.path)
}

/// The index of the glyph with the smallest `y1` among `glyphs[..n]` that
/// have a box, the first of equals; `None` when none has a box.
pub open spec fn highest_index(glyphs: Seq<GlyphModel>, n: int) -> Option<int>
    decreases n,
{
    if n <= 0 {
        None
    } else {
        let best = highest_index(glyphs, n - 1);
        match outline_box(glyphs[n - 1].path) {
            None => best,
            Some(b) => match best {
                Some(k) => if b.y1 < outline_box(glyphs[k].path).unwrap().y1 {
                    Some(n - 1)
                } else {
                    Some(k)
                },
                None => Some(n - 1),
            },
        }
    }
}

/// A font: global metrics and its glyphs, in document order.
#[derive(Debug)]
pub struct Font {
    horizontal_advance_x: Coord,
    units_per_em: Coord,
    ascent: Coord,
    descent: Coord,
    glyphs: Vec<Glyph>,
}

impl View for Font {
    type V = FontModel;

    closed spec fn view(&self) -> FontModel {
        FontModel {
            advance: self.horizontal_advance_x as int,
            units_per_em: self.units_per_em as int,
            ascent: self.ascent as int,
            descent: self.descent as int,
            glyphs: self.glyphs@.map_values(|g: Glyph| g@),
        }
    }
}

/// Each advance is a parsed number.
pub open spec fn advances_in_range(glyphs: Seq<GlyphModel>) -> bool {
    forall|k: int| 0 <= k < glyphs.len() ==> -number_limit() < #[trigger] glyphs[k].advance < number_limit()
}

/// The box of an outline, when it can be parsed and replayed.
fn outline_bounds(path: &String) -> (r: Option<Bounds>)
    ensures
        match outline_box(path@) {
            Some(b) => r matches Some(x) && x@ == b,
            None => r is None,
        },
        r matches Some(x) ==> x@.within(coord_bound()),
{
    match Path::parse(path.as_str()) {
        Ok(p) => match p.bounds() {
            Ok(b) => Some(b),
            Err(_) => None,
        },
        Err(_) => None,
    }
}

impl Font {
    #[verifier::type_invariant]
    spec fn advances_parsed(self) -> bool {
        advances_in_range(self.glyphs@.map_values(|g: Glyph| g@))
    }

    /// The index of the first glyph of character `c`.
    fn glyph_index(&self, c: char) -> (r: Option<usize>)
        ensures
            match find_glyph(self@.glyphs, c) {
                Some(g) => r matches Some(k) && k < self@.glyphs.len() && self@.glyphs[k as int]
                    == g,
                None => r is None,
            },
    {
        let ghost models = self@.glyphs;
        let mut i: usize = 0;
        while i < self.glyphs.len()
            invariant
                i <= self.glyphs.len(),
                models == self.glyphs@.map_values(|g: Glyph| g@),
                find_glyph(models, c) == find_glyph_from(models, c, i as int),
            decreases self.glyphs.len() - i,
        {
            if self.glyphs[i].unicode == c {
                assert(models[i as int] == self.glyphs@[i as int]@);
                return Some(i);
            }
            i = i + 1;
        }
        None
    }

    /// The distance between the lowest and highest `y` corner of all
    /// outlines, with 0 among them.
    pub fn font_height(&self) -> (r: Coord)
        ensures
            r == vertical_span(outlines(self@.glyphs)),
    {
        let ghost paths = outlines(self@.glyphs);
        let mut lo: Coord = 0;
        let mut hi: Coord = 0;
        let mut i: usize = 0;
        assert(paths.take(0) =~= Seq::<Seq<char>>::empty());
        while i < self.glyphs.len()
            invariant
                i <= self.glyphs.len(),
                paths.len() == self.glyphs.len(),
                paths == outlines(self.glyphs@.map_values(|g: Glyph| g@)),
                (lo as int, hi as int) == vertical_extent(paths.take(i as int)),
                -coord_bound() <= lo <= 0 <= hi <= coord_bound(),
            decreases self.glyphs.len() - i,
        {
            assert(paths.take(i + 1).drop_last() =~= paths.take(i as int));
            assert(paths[i as int] == self.glyphs@[i as int].path@);
            if let Some(b) = outline_bounds(&self.glyphs[i].path) {
                lo = min_coord(min_coord(lo, b.y1), b.y2);
                hi = max_coord(max_coord(hi, b.y1), b.y2);
            }
            i = i + 1;
        }
        assert(paths.take(i as int) =~= paths);
        hi - lo
    }

    /// The distance between the lowest and highest `y` corner of the
    /// outlines of the characters of `text`, with 0 among them.
    pub fn text_height(&self, text: String) -> (r: Coord)
        ensures
            r == vertical_span(text_outlines(self@.glyphs, text@)),
    {
        let chars = chars_of(text.as_str());
        let ghost t = text@;
        let mut lo: Coord = 0;
        let mut hi: Coord = 0;
        let mut i: usize = 0;
        assert(t.take(0) =~= Seq::<char>::empty());
        while i < chars.len()
            invariant
                i <= chars.len(),
                chars@ == t,
                (lo as int, hi as int) == vertical_extent(text_outlines(self@.glyphs, t.take(i as int))),
                -coord_bound() <= lo <= 0 <= hi <= coord_bound(),
            decreases chars.len() - i,
        {
            assert(t.take(i + 1).drop_last() =~= t.take(i as int));
            let ghost prev = text_outlines(self@.glyphs, t.take(i as int));
            if let Some(k) = self.glyph_index(chars[i]) {
                let ghost next = prev.push(self.glyphs@[k as int].path@);
                assert(next.drop_last() =~= prev);
                if let Some(b) = outline_bounds(&self.glyphs[k].path) {
                    lo = min_coord(min_coord(lo, b.y1), b.y2);
                    hi = max_coord(max_coord(hi, b.y1), b.y2);
                }
            }
            i = i + 1;
        }
        assert(t.take(i as int) =~= t);
        hi - lo
    }

    /// The sum of the advances of the characters of `text`, less the left
    /// margin of the first one whose glyph has a box.
    pub fn text_width(&self, text: String) -> (r: Coord)
        ensures
            r == advance_sum(self@.glyphs, text@) - left_margin(self@.glyphs, text@),
    {
        proof {
            use_type_invariant(self);
        }
        let chars = chars_of(text.as_str());
        let ghost t = text@;
        let mut width: Coord = 0;
        let mut i: usize = 0;
        assert(t.take(0) =~= Seq::<char>::empty());
        while i < chars.len()
            invariant
                i <= chars.len(),
                chars@ == t,
                width == advance_sum(self@.glyphs, t.take(i as int)),
                -(i * number_limit()) <= width <= i * number_limit(),
                advances_in_range(self@.glyphs),
            decreases chars.len() - i,
        {
            assert(t.take(i + 1).drop_last() =~= t.take(i as int));
            assert(i * number_limit() + number_limit() == (i + 1) * number_limit()) by (nonlinear_arith);
            assert((i + 1) * number_limit() <= coord_bound()) by (nonlinear_arith)
                requires i < 0x1_0000_0000_0000_0000, number_limit() > 0;
            if let Some(k) = self.glyph_index(chars[i]) {
                assert(self@.glyphs[k as int] == self.glyphs@[k as int]@);
                assert(-number_limit() < self@.glyphs[k as int].advance < number_limit());
                width = width + self.glyphs[k].horizontal_advance_x;
            }
            i = i + 1;
        }
        assert(t.take(i as int) =~= t);
        assert(i * number_limit() <= coord_bound()) by (nonlinear_arith)
            requires i <= 0xffff_ffff_ffff_ffff, number_limit() > 0;
        width - self.left_margin_for_text(&chars)
    }

    /// The `x1` of the first character of `text` whose glyph has a box, or 0.
    fn left_margin_for_text(&self, text: &Vec<char>) -> (r: Coord)
        ensures
            r == left_margin(self@.glyphs, text@),
            -coord_bound() <= r <= coord_bound(),
    {
        let mut i: usize = 0;
        while i < text.len()
            invariant
                i <= text.len(),
                left_margin(self@.glyphs, text@) == left_margin_from(self@.glyphs, text@, i as int),
            decreases text.len() - i,
        {
            if let Some(k) = self.glyph_index(text[i]) {
                if let Some(b) = outline_bounds(&self.glyphs[k].path) {
                    return b.x1;
                }
            }
            i = i + 1;
        }
        0
    }

    /// The character of the glyph whose box reaches highest (smallest
    /// `y1`), the first of equals; `None` when no outline has a box.
    pub fn highest_glyph(&self) -> (r: Option<char>)
        ensures
            match highest_index(self@.glyphs, self@.glyphs.len() as int) {
                Some(k) => r == Some(self@.glyphs[k].unicode),
                None => r is None,
            },
    {
        let ghost models = self@.glyphs;
        let mut best: Option<usize> = None;
        let mut best_y: Coord = 0;
        let mut i: usize = 0;
        while i < self.glyphs.len()
            invariant
                i <= self.glyphs.len(),
                models == self.glyphs@.map_values(|g: Glyph| g@),
                highest_index(models, i as int) == match best {
                    Some(k) => Some(k as int),
                    None => None::<int>,
                },
                best matches Some(k) ==> k < i && outline_box(models[k as int].path) is Some
                    && outline_box(models[k as int].path).unwrap().y1 == best_y,
            decreases self.glyphs.len() - i,
        {
            assert(models[i as int].path == self.glyphs@[i as int].path@);
            if let Some(b) = outline_bounds(&self.glyphs[i].path) {
                match best {
                    Some(_) => {
                        if b.y1 < best_y {
                            best = Some(i);
                            best_y = b.y1;
                        }
                    },
                    None => {
                        best = Some(i);
                        best_y = b.y1;
                    },
                }
            }
            i = i + 1;
        }
        match best {
            Some(k) => {
                assert(models[k as int].unicode == self.glyphs@[k as int].unicode);
                Some(self.glyphs[k].unicode)
            },
            None => None,
        }
    }
}

fn min_coord(a: Coord, b: Coord) -> (r: Coord)
    ensures
        r == min_int(a as int, b as int),
{
    if a <= b {
        a
    } else {
        b
    }
}

fn max_coord(a: Coord, b: Coord) -> (r: Coord)
    ensures
        r == max_int(a as int, b as int),
{
    if a >= b {
        a
    } else {
        b
    }
}

/// A numeric attribute of a font.
#[derive(Debug, Clone, Copy, PartialEq, Eq, Structural)]
pub enum FontAttribute {
    /// `horiz-adv-x` of `<font>`.
    HorizontalAdvanceX,
    /// `units-per-em` of `<font-face>`.
    UnitsPerEm,
    /// `ascent` of `<font-face>`.
    Ascent,
    /// `descent` of `<font-face>`.
    Descent,
    /// `horiz-adv-x` of a `<glyph>`.
    GlyphAdvanceX,
}

/// Why a font could not be loaded.
#[derive(Debug, Clone, Copy, PartialEq, Eq, Structural)]
pub enum FontError {
    /// The text is not a well-formed XML document.
    InvalidDocument,
    /// The document holds no `<font>` element.
    MissingFontElement,
    /// The `<font>` element holds no `<font-face>` element.
    MissingFontFaceElement,
    /// A required attribute is absent.
    MissingAttribute(FontAttribute),
    /// An attribute does not hold a number.
    InvalidNumber(FontAttribute),
}

/// The attributes of one `<glyph>` element.
#[derive(Debug)]
pub struct GlyphAttributes {
    pub unicode: Option<String>,
    pub horizontal_advance_x: Option<String>,
    pub d: Option<String>,
}

/// The attributes of a `<font>` element, its `<font-face>` and its glyphs.
#[derive(Debug)]
pub struct FontAttributes {
    pub horizontal_advance_x: Option<String>,
    pub units_per_em: Option<String>,
    pub ascent: Option<String>,
    pub descent: Option<String>,
    pub glyphs: Vec<GlyphAttributes>,
}

/// The value of an optional attribute.
pub open spec fn text_of(a: Option<String>) -> Option<Seq<char>> {
    match a {
        Some(s) => Some(s@),
        None => None,
    }
}

/// The attributes of one `<glyph>` element, as values.
pub ghost struct GlyphAttributesModel {
    pub unicode: Option<Seq<char>>,
    pub horizontal_advance_x: Option<Seq<char>>,
    pub d: Option<Seq<char>>,
}

impl View for GlyphAttributes {
    type V = GlyphAttributesModel;

    open spec fn view(&self) -> GlyphAttributesModel {
        GlyphAttributesModel {
            unicode: text_of(self.unicode),
            horizontal_advance_x: text_of(self.horizontal_advance_x),
            d: text_of(self.d),
        }
    }
}

/// The attributes of a font, as values.
pub ghost struct FontAttributesModel {
    pub horizontal_advance_x: Option<Seq<char>>,
    pub units_per_em: Option<Seq<char>>,
    pub ascent: Option<Seq<char>>,
    pub descent: Option<Seq<char>>,
    pub glyphs: Seq<GlyphAttributesModel>,
}

impl View for FontAttributes {
    type V = FontAttributesModel;

    open spec fn view(&self) -> FontAttributesModel {
        FontAttributesModel {
            horizontal_advance_x: text_of(self.horizontal_advance_x),
            units_per_em: text_of(self.units_per_em),
            ascent: text_of(self.ascent),
            descent: text_of(self.descent),
            glyphs: self.glyphs@.map_values(|g: GlyphAttributes| g@),
        }
    }
}

/// What decoding the HTML entities of `s` gives.
pub uninterp spec fn decoded_entities(s: Seq<char>) -> Seq<char>;

/// Relies on `html_escape::decode_html_entities`, which depends on the
/// characters of its argument alone.
#[verifier::external_body]
fn decode_entities(s: &str) -> (r: String)
    ensures
        r@ == decoded_entities(s@),
{
    html_escape::decode_html_entities(s).into_owned()
}

/// The value of a required numeric attribute.
pub open spec fn attribute_number(a: Option<Seq<char>>, which: FontAttribute) -> Result<int, FontError> {
    match a {
        None => Err(FontError::MissingAttribute(which)),
        Some(s) => match number_value(s) {
            None => Err(FontError::InvalidNumber(which)),
            Some(v) => Ok(v),
        },
    }
}

/// A glyph is kept when it has a `unicode` attribute whose first character
/// is allowed and whose decoding leaves some character.
pub open spec fn keeps_glyph(g: GlyphAttributesModel, allowed: Seq<char>) -> bool {
    &&& g.unicode is Some
    &&& g.unicode.unwrap().len() > 0
    &&& allowed.contains(g.unicode.unwrap()[0])
    &&& decoded_entities(g.unicode.unwrap()).len() > 0
}

/// The glyph that a kept `<glyph>` element gives: its character is the first
/// of the decoded `unicode`, its advance defaults to the font's, its outline
/// to the empty path.
pub open spec fn glyph_model(g: GlyphAttributesModel, default_advance: int) -> Result<GlyphModel, FontError> {
    let advance = match g.horizontal_advance_x {
        None => Ok(default_advance),
        Some(a) => match number_value(a) {
            None => Err(FontError::InvalidNumber(FontAttribute::GlyphAdvanceX)),
            Some(v) => Ok(v),
        },
    };
    match advance {
        Err(e) => Err(e),
        Ok(v) => Ok(
            GlyphModel {
                unicode: decoded_entities(g.unicode.unwrap())[0],
                advance: v,
                path: match g.d {
                    Some(d) => d,
                    None => Seq::empty(),
                },
            },
        ),
    }
}

/// The glyphs of `gs`, in order, with those that are not kept left out.
pub open spec fn glyph_models(gs: Seq<GlyphAttributesModel>, allowed: Seq<char>, default_advance: int) -> Result<
    Seq<GlyphModel>,
    FontError,
>
    decreases gs.len(),
{
    if gs.len() == 0 {
        Ok(Seq::empty())
    } else {
        match glyph_models(gs.drop_last(), allowed, default_advance) {
            Err(e) => Err(e),
            Ok(rest) => if keeps_glyph(gs.last(), allowed) {
                match glyph_model(gs.last(), default_advance) {
                    Err(e) => Err(e),
                    Ok(g) => Ok(rest.push(g)),
                }
            } else {
                Ok(rest)
            },
        }
    }
}

/// The font that a set of attributes describes.
pub open spec fn font_model(attrs: FontAttributesModel, allowed: Seq<char>) -> Result<FontModel, FontError> {
    match attribute_number(attrs.horizontal_advance_x, FontAttribute::HorizontalAdvanceX) {
        Err(e) => Err(e),
        Ok(advance) => match attribute_number(attrs.units_per_em, FontAttribute::UnitsPerEm) {
            Err(e) => Err(e),
            Ok(units_per_em) => match attribute_number(attrs.ascent, FontAttribute::Ascent) {
                Err(e) => Err(e),
                Ok(ascent) => match attribute_number(attrs.descent, FontAttribute::Descent) {
                    Err(e) => Err(e),
                    Ok(descent) => match glyph_models(attrs.glyphs, allowed, advance) {
                        Err(e) => Err(e),
                        Ok(glyphs) => Ok(FontModel { advance, units_per_em, ascent, descent, glyphs }),
                    },
                },
            },
        },
    }
}

/// The index of the first node of `ns[i..end]` with tag `tag`.
pub open spec fn find_tag_from(ns: Seq<NodeModel>, tag: Seq<char>, i: int, end: int) -> Option<int>
    decreases end - i,
{
    if i < 0 || i >= end || i >= ns.len() {
        None
    } else if ns[i].tag == tag {
        Some(i)
    } else {
        find_tag_from(ns, tag, i + 1, end)
    }
}

/// The end of the run of nodes from `i` that are deeper than `depth`.
pub open spec fn deeper_end(ns: Seq<NodeModel>, depth: int, i: int) -> int
    decreases ns.len() - i,
{
    if i < 0 || i >= ns.len() || ns[i].depth <= depth {
        i
    } else {
        deeper_end(ns, depth, i + 1)
    }
}

/// The nodes inside node `k` are those of `ns[k + 1..subtree_end(ns, k)]`.
pub open spec fn subtree_end(ns: Seq<NodeModel>, k: int) -> int {
    deeper_end(ns, ns[k].depth, k + 1)
}

/// The value of the first attribute of `attrs[i..]` named `name` that
/// carries no namespace.
pub open spec fn attribute_from(attrs: Seq<AttributeModel>, name: Seq<char>, i: int) -> Option<Seq<char>>
    decreases attrs.len() - i,
{
    if i < 0 || i >= attrs.len() {
        None
    } else if attrs[i].name == name && !attrs[i].namespaced {
        Some(attrs[i].value)
    } else {
        attribute_from(attrs, name, i + 1)
    }
}

pub open spec fn attribute_of(n: NodeModel, name: Seq<char>) -> Option<Seq<char>> {
    attribute_from(n.attributes, name, 0)
}

/// The attributes of a `<glyph>` node.
pub open spec fn glyph_attributes_of(n: NodeModel) -> GlyphAttributesModel {
    GlyphAttributesModel {
        unicode: attribute_of(n, "unicode"@),
        horizontal_advance_x: attribute_of(n, "horiz-adv-x"@),
        d: attribute_of(n, "d"@),
    }
}

/// The attributes of the `<glyph>` nodes of `ns[start..j]`, in order.
pub open spec fn glyphs_in(ns: Seq<NodeModel>, start: int, j: int) -> Seq<GlyphAttributesModel>
    decreases j - start,
{
    if j <= start {
        Seq::empty()
    } else {
        let rest = glyphs_in(ns, start, j - 1);
        if ns[j - 1].tag == "glyph"@ {
            rest.push(glyph_attributes_of(ns[j - 1]))
        } else {
            rest
        }
    }
}

/// The font attributes that a document holds: those of its first `<font>`,
/// of the first `<font-face>` inside it and of each `<glyph>` inside it.
pub open spec fn font_attributes_of(nodes: Option<Seq<NodeModel>>) -> Result<FontAttributesModel, FontError> {
    match nodes {
        None => Err(FontError::InvalidDocument),
        Some(ns) => match find_tag_from(ns, "font"@, 0, ns.len() as int) {
            None => Err(FontError::MissingFontElement),
            Some(f) => {
                let end = subtree_end(ns, f);
                match find_tag_from(ns, "font-face"@, f + 1, end) {
                    None => Err(FontError::MissingFontFaceElement),
                    Some(ff) => Ok(
                        FontAttributesModel {
                            horizontal_advance_x: attribute_of(ns[f], "horiz-adv-x"@),
                            units_per_em: attribute_of(ns[ff], "units-per-em"@),
                            ascent: attribute_of(ns[ff], "ascent"@),
                            descent: attribute_of(ns[ff], "descent"@),
                            glyphs: glyphs_in(ns, f + 1, end),
                        },
                    ),
                }
            },
        }
    }
}

/// The number that an attribute value holds.
fn number_of(s: &String) -> (r: Option<Coord>)
    ensures
        match number_value(s@) {
            Some(v) => r matches Some(x) && x as int == v,
            None => r is None,
        },
        r matches Some(v) ==> -number_limit() < v < number_limit(),
{
    let chars = chars_of(s.as_str());
    assert(chars@.subrange(0, chars@.len() as int) =~= s@);
    parse_number(&chars, 0, chars.len())
}

/// The value of a required numeric attribute.
fn required_number(a: &Option<String>, which: FontAttribute) -> (r: Result<Coord, FontError>)
    ensures
        match attribute_number(text_of(*a), which) {
            Ok(v) => r matches Ok(x) && x as int == v,
            Err(e) => r == Err::<Coord, FontError>(e),
        },
        r matches Ok(v) ==> -number_limit() < v < number_limit(),
{
    match a {
        None => Err(FontError::MissingAttribute(which)),
        Some(s) => match number_of(s) {
            None => Err(FontError::InvalidNumber(which)),
            Some(v) => Ok(v),
        },
    }
}

/// Whether `c` is one of `allowed`.
fn contains_char(allowed: &Vec<char>, c: char) -> (r: bool)
    ensures
        r == allowed@.contains(c),
{
    let mut i: usize = 0;
    while i < allowed.len()
        invariant
            i <= allowed.len(),
            forall|k: int| 0 <= k < i ==> allowed@[k] != c,
        decreases allowed.len() - i,
    {
        if allowed[i] == c {
            return true;
        }
        i = i + 1;
    }
    false
}

/// The letters, digits and accented Latin letters that a font keeps glyphs
/// of by default.
pub open spec fn default_characters() -> Seq<char> {
    seq![
        'a', 'b', 'c', 'd', 'e', 'f', 'g', 'h', 'i', 'j', 'k', 'l', 'm', 'n', 'o', 'p', 'q',
        'r', 's', 't', 'u', 'v', 'w', 'x', 'y', 'z', 'A', 'B', 'C', 'D', 'E', 'F', 'G', 'H',
        'I', 'J', 'K', 'L', 'M', 'N', 'O', 'P', 'Q', 'R', 'S', 'T', 'U', 'V', 'W', 'X', 'Y',
        'Z', '0', '1', '2', '3', '4', '5', '6', '7', '8', '9', 'É', 'È', 'Ê', 'Ë', 'é', 'è',
        'ê', 'ë', 'À', 'Â', 'Ä', 'à', 'â', 'ä', 'Ô', 'Ö', 'ô', 'ö', 'Ù', 'Û', 'Ü', 'ù', 'û',
        'ü', 'Ç', 'ç', 'Œ', 'œ', 'Æ', 'æ', 'ß', 'µ',
    ]
}

/// The characters of [`default_characters`].
pub fn default_glyph_characters() -> (r: Vec<char>)
    ensures
        r@ == default_characters(),
{
    let r = vec![
        'a', 'b', 'c', 'd', 'e', 'f', 'g', 'h', 'i', 'j', 'k', 'l', 'm', 'n', 'o', 'p', 'q',
        'r', 's', 't', 'u', 'v', 'w', 'x', 'y', 'z', 'A', 'B', 'C', 'D', 'E', 'F', 'G', 'H',
        'I', 'J', 'K', 'L', 'M', 'N', 'O', 'P', 'Q', 'R', 'S', 'T', 'U', 'V', 'W', 'X', 'Y',
        'Z', '0', '1', '2', '3', '4', '5', '6', '7', '8', '9', 'É', 'È', 'Ê', 'Ë', 'é', 'è',
        'ê', 'ë', 'À', 'Â', 'Ä', 'à', 'â', 'ä', 'Ô', 'Ö', 'ô', 'ö', 'Ù', 'Û', 'Ü', 'ù', 'û',
        'ü', 'Ç', 'ç', 'Œ', 'œ', 'Æ', 'æ', 'ß', 'µ',
    ];
    assert(r@ =~= default_characters());
    r
}

/// Whether two strings hold the same characters.
fn same_text(a: &str, b: &str) -> (r: bool)
    ensures
        r == (a@ == b@),
{
    let x = chars_of(a);
    let y = chars_of(b);
    if x.len() != y.len() {
        assert(a@.len() != b@.len());
        return false;
    }
    let mut i: usize = 0;
    while i < x.len()
        invariant
            i <= x.len() == y.len(),
            x@ == a@,
            y@ == b@,
            forall|k: int| 0 <= k < i ==> x@[k] == y@[k],
        decreases x.len() - i,
    {
        if x[i] != y[i] {
            assert(a@[i as int] != b@[i as int]);
            return false;
        }
        i = i + 1;
    }
    assert(x@ =~= y@);
    true
}

/// The index of the first node of `nodes[start..end]` with tag `tag`.
fn find_tag(nodes: &Vec<XmlNode>, tag: &str, start: usize, end: usize) -> (r: Option<usize>)
    requires
        start <= end <= nodes.len(),
    ensures
        match find_tag_from(nodes@.map_values(|n: XmlNode| n@), tag@, start as int, end as int) {
            Some(k) => r matches Some(x) && x as int == k,
            None => r is None,
        },
        r matches Some(k) ==> start <= k < end,
{
    let ghost ns = nodes@.map_values(|n: XmlNode| n@);
    let mut i: usize = start;
    while i < end
        invariant
            start <= i <= end <= nodes.len(),
            ns == nodes@.map_values(|n: XmlNode| n@),
            find_tag_from(ns, tag@, start as int, end as int) == find_tag_from(ns, tag@, i as int, end as int),
        decreases end - i,
    {
        assert(ns[i as int] == nodes@[i as int]@);
        if same_text(nodes[i].tag.as_str(), tag) {
            return Some(i);
        }
        i = i + 1;
    }
    None
}

/// The end of the nodes inside node `k`.
fn subtree_end_of(nodes: &Vec<XmlNode>, k: usize) -> (r: usize)
    requires
        k < nodes.len(),
    ensures
        r == subtree_end(nodes@.map_values(|n: XmlNode| n@), k as int),
        k < r <= nodes.len(),
{
    let ghost ns = nodes@.map_values(|n: XmlNode| n@);
    let depth = nodes[k].depth;
    assert(ns[k as int].depth == depth);
    let mut i: usize = k + 1;
    while i < nodes.len() && nodes[i].depth > depth
        invariant
            k < i <= nodes.len(),
            ns == nodes@.map_values(|n: XmlNode| n@),
            deeper_end(ns, depth as int, k + 1) == deeper_end(ns, depth as int, i as int),
        decreases nodes.len() - i,
    {
        assert(ns[i as int] == nodes@[i as int]@);
        i = i + 1;
    }
    if i < nodes.len() {
        assert(ns[i as int] == nodes@[i as int]@);
    }
    i
}

/// The value of the first attribute of `node` named `name` that carries no
/// namespace.
fn attribute_value(node: &XmlNode, name: &str) -> (r: Option<String>)
    ensures
        text_of(r) == attribute_of(node@, name@),
{
    let ghost attrs = node@.attributes;
    let mut i: usize = 0;
    while i < node.attributes.len()
        invariant
            i <= node.attributes.len(),
            attrs == node.attributes@.map_values(|a: XmlAttribute| a@),
            attribute_of(node@, name@) == attribute_from(attrs, name@, i as int),
        decreases node.attributes.len() - i,
    {
        let a = &node.attributes[i];
        assert(attrs[i as int] == a@);
        if !a.namespaced && same_text(a.name.as_str(), name) {
            return Some(a.value.as_str().to_owned());
        }
        i = i + 1;
    }
    None
}

/// The attributes of the first `<font>` element of an SVG document, of the
/// first `<font-face>` inside it, and of each `<glyph>` inside it.
fn read_font_attributes(svg: &str) -> (r: Result<FontAttributes, FontError>)
    ensures
        match font_attributes_of(xml_nodes(svg@)) {
            Ok(m) => r matches Ok(a) && a@ == m,
            Err(e) => r == Err::<FontAttributes, FontError>(e),
        },
{
    let nodes = match read_xml_nodes(svg) {
        Some(v) => v,
        None => { return Err(FontError::InvalidDocument); },
    };
    let ghost ns = nodes@.map_values(|n: XmlNode| n@);
    let font = match find_tag(&nodes, "font", 0, nodes.len()) {
        Some(k) => k,
        None => { return Err(FontError::MissingFontElement); },
    };
    let end = subtree_end_of(&nodes, font);
    let face = match find_tag(&nodes, "font-face", font + 1, end) {
        Some(k) => k,
        None => { return Err(FontError::MissingFontFaceElement); },
    };
    let mut glyphs: Vec<GlyphAttributes> = Vec::new();
    let mut i: usize = font + 1;
    assert(glyphs@.map_values(|g: GlyphAttributes| g@) =~= glyphs_in(ns, font + 1, font + 1));
    while i < end
        invariant
            font + 1 <= i <= end <= nodes.len(),
            ns == nodes@.map_values(|n: XmlNode| n@),
            glyphs@.map_values(|g: GlyphAttributes| g@) == glyphs_in(ns, font + 1, i as int),
        decreases end - i,
    {
        let n = &nodes[i];
        assert(ns[i as int] == n@);
        if same_text(n.tag.as_str(), "glyph") {
            let g = GlyphAttributes {
                unicode: attribute_value(n, "unicode"),
                horizontal_advance_x: attribute_value(n, "horiz-adv-x"),
                d: attribute_value(n, "d"),
            };
            let ghost old_raw = glyphs@;
            glyphs.push(g);
            assert(glyphs@.map_values(|g: GlyphAttributes| g@) =~= old_raw.map_values(|g: GlyphAttributes| g@).push(g@)) by {
                assert forall|k: int| 0 <= k < old_raw.len() implies #[trigger] glyphs@[k] == old_raw[k] by {}
            }
        }
        i = i + 1;
    }
    assert(ns[font as int] == nodes@[font as int]@);
    assert(ns[face as int] == nodes@[face as int]@);
    Ok(
        FontAttributes {
            horizontal_advance_x: attribute_value(&nodes[font], "horiz-adv-x"),
            units_per_em: attribute_value(&nodes[face], "units-per-em"),
            ascent: attribute_value(&nodes[face], "ascent"),
            descent: attribute_value(&nodes[face], "descent"),
            glyphs,
        },
    )
}

/// The glyph of one `<glyph>` element, `None` when it is not kept.
fn glyph_from_attributes(g: &GlyphAttributes, allowed: &Vec<char>, default_advance: Coord) -> (r:
    Result<Option<Glyph>, FontError>)
    requires
        -number_limit() < default_advance < number_limit(),
    ensures
        !keeps_glyph(g@, allowed@) ==> r matches Ok(None),
        keeps_glyph(g@, allowed@) ==> match glyph_model(g@, default_advance as int) {
            Ok(m) => r matches Ok(Some(x)) && x@ == m,
            Err(e) => r == Err::<Option<Glyph>, FontError>(e),
        },
        r matches Ok(Some(x)) ==> -number_limit() < x.horizontal_advance_x < number_limit(),
{
    let unicode = match &g.unicode {
        Some(u) => u,
        None => { return Ok(None); },
    };
    let raw = chars_of(unicode.as_str());
    if raw.len() == 0 || !contains_char(allowed, raw[0]) {
        return Ok(None);
    }
    let decoded = chars_of(decode_entities(unicode.as_str()).as_str());
    if decoded.len() == 0 {
        return Ok(None);
    }
    let advance = match &g.horizontal_advance_x {
        None => default_advance,
        Some(a) => match number_of(a) {
            None => {
                return Err(FontError::InvalidNumber(FontAttribute::GlyphAdvanceX));
            },
            Some(v) => v,
        },
    };
    let path = match &g.d {
        Some(d) => d.as_str().to_owned(),
        None => String::new(),
    };
    assert(decoded@ == decoded_entities(unicode@));
    Ok(Some(Glyph { unicode: decoded[0], horizontal_advance_x: advance, path }))
}

impl Font {
    /// Loads a font from the text of an SVG document, keeping the glyphs of
    /// [`default_characters`].
    pub fn new(svg: String) -> (r: Result<Font, FontError>)
        ensures
            match font_attributes_of(xml_nodes(svg@)) {
                Err(e) => r == Err::<Font, FontError>(e),
                Ok(a) => match font_model(a, default_characters()) {
                    Ok(m) => r matches Ok(f) && f@ == m,
                    Err(e) => r matches Err(x) && x == e,
                },
            },
    {
        Font::with_glyph_characters(svg.as_str(), &default_glyph_characters())
    }

    /// Loads a font from the text of an SVG document, keeping the glyphs
    /// whose `unicode` starts with one of `allowed`.
    pub fn with_glyph_characters(svg: &str, allowed: &Vec<char>) -> (r: Result<Font, FontError>)
        ensures
            match font_attributes_of(xml_nodes(svg@)) {
                Err(e) => r == Err::<Font, FontError>(e),
                Ok(a) => match font_model(a, allowed@) {
                    Ok(m) => r matches Ok(f) && f@ == m,
                    Err(e) => r matches Err(x) && x == e,
                },
            },
    {
        match read_font_attributes(svg) {
            Err(e) => Err(e),
            Ok(attrs) => Font::from_attributes(&attrs, allowed),
        }
    }

    /// The font's default horizontal advance.
    pub fn horizontal_advance_x(&self) -> (r: Coord)
        ensures
            r as int == self@.advance,
    {
        self.horizontal_advance_x
    }

    pub fn units_per_em(&self) -> (r: Coord)
        ensures
            r as int == self@.units_per_em,
    {
        self.units_per_em
    }

    pub fn ascent(&self) -> (r: Coord)
        ensures
            r as int == self@.ascent,
    {
        self.ascent
    }

    pub fn descent(&self) -> (r: Coord)
        ensures
            r as int == self@.descent,
    {
        self.descent
    }

    /// The glyphs, in document order.
    pub fn glyphs(&self) -> (r: &Vec<Glyph>)
        ensures
            r@.map_values(|g: Glyph| g@) == self@.glyphs,
    {
        &self.glyphs
    }

    /// Builds a font from the attributes of its elements, keeping the glyphs
    /// whose `unicode` starts with one of `allowed`.
    pub fn from_attributes(attrs: &FontAttributes, allowed: &Vec<char>) -> (r: Result<Font, FontError>)
        ensures
            match font_model(attrs@, allowed@) {
                Ok(m) => r matches Ok(f) && f@ == m,
                Err(e) => r matches Err(x) && x == e,
            },
    {
        let horizontal_advance_x = match required_number(&attrs.horizontal_advance_x, FontAttribute::HorizontalAdvanceX) {
            Ok(v) => v,
            Err(e) => { return Err(e); },
        };
        let units_per_em = match required_number(&attrs.units_per_em, FontAttribute::UnitsPerEm) {
            Ok(v) => v,
            Err(e) => { return Err(e); },
        };
        let ascent = match required_number(&attrs.ascent, FontAttribute::Ascent) {
            Ok(v) => v,
            Err(e) => { return Err(e); },
        };
        let descent = match required_number(&attrs.descent, FontAttribute::Descent) {
            Ok(v) => v,
            Err(e) => { return Err(e); },
        };
        let ghost gs = attrs@.glyphs;
        let mut glyphs: Vec<Glyph> = Vec::new();
        let mut i: usize = 0;
        assert(gs.take(0) =~= Seq::<GlyphAttributesModel>::empty());
        assert(glyphs@.map_values(|g: Glyph| g@) =~= Seq::<GlyphModel>::empty());
        while i < attrs.glyphs.len()
            invariant
                i <= attrs.glyphs.len(),
                gs == attrs.glyphs@.map_values(|g: GlyphAttributes| g@),
                glyph_models(gs.take(i as int), allowed@, horizontal_advance_x as int) == Ok::<
                    Seq<GlyphModel>,
                    FontError,
                >(glyphs@.map_values(|g: Glyph| g@)),
                advances_in_range(glyphs@.map_values(|g: Glyph| g@)),
                -number_limit() < horizontal_advance_x < number_limit(),
                attribute_number(attrs@.horizontal_advance_x, FontAttribute::HorizontalAdvanceX)
                    == Ok::<int, FontError>(horizontal_advance_x as int),
                attribute_number(attrs@.units_per_em, FontAttribute::UnitsPerEm) == Ok::<int, FontError>(
                    units_per_em as int,
                ),
                attribute_number(attrs@.ascent, FontAttribute::Ascent) == Ok::<int, FontError>(
                    ascent as int,
                ),
                attribute_number(attrs@.descent, FontAttribute::Descent) == Ok::<int, FontError>(
                    descent as int,
                ),
            decreases attrs.glyphs.len() - i,
        {
            let g = &attrs.glyphs[i];
            assert(gs.take(i + 1).drop_last() =~= gs.take(i as int));
            assert(gs.take(i + 1).last() == g@);
            match glyph_from_attributes(g, allowed, horizontal_advance_x) {
                Err(e) => {
                    assert(keeps_glyph(g@, allowed@));
                    assert(glyph_models(gs.take(i + 1), allowed@, horizontal_advance_x as int) == Err::<Seq<GlyphModel>, FontError>(e));
                    proof {
                        lemma_glyph_error_stays(gs, (i + 1) as int, allowed@, horizontal_advance_x as int);
                    }
                    return Err(e);
                },
                Ok(None) => {},
                Ok(Some(glyph)) => {
                    let ghost old_raw = glyphs@;
                    glyphs.push(glyph);
                    assert(glyphs@.map_values(|g: Glyph| g@) =~= old_raw.map_values(|g: Glyph| g@).push(glyph@)) by {
                        assert(glyphs@ == old_raw.push(glyph));
                        assert forall|k: int| 0 <= k < old_raw.len() implies #[trigger] glyphs@[k] == old_raw[k] by {}
                    }
                },
            }
            i = i + 1;
        }
        assert(gs.take(i as int) =~= gs);
        Ok(Font { horizontal_advance_x, units_per_em, ascent, descent, glyphs })
    }
}

/// Once a prefix of the glyphs fails, the whole list fails the same way.
proof fn lemma_glyph_error_stays(gs: Seq<GlyphAttributesModel>, k: int, allowed: Seq<char>, default_advance: int)
    requires
        0 <= k <= gs.len(),
        glyph_models(gs.take(k), allowed, default_advance) is Err,
    ensures
        glyph_models(gs, allowed, default_advance) == glyph_models(gs.take(k), allowed, default_advance),
    decreases gs.len() - k,
{
    if k < gs.len() {
        assert(gs.take(k + 1).drop_last() =~= gs.take(k));
        lemma_glyph_error_stays(gs, k + 1, allowed, default_advance);
    } else {
        assert(gs.take(k) =~= gs);
    }
}

/// The width of a one-character text is its glyph's advance less the `x1`
/// of the glyph's own box (nothing when the outline has no box).
pub proof fn lemma_single_glyph_width(glyphs: Seq<GlyphModel>, c: char)
    requires
        find_glyph(glyphs, c) is Some,
    ensures
        ({
            let g = find_glyph(glyphs, c).unwrap();
            advance_sum(glyphs, seq![c]) - left_margin(glyphs, seq![c]) == g.advance - match outline_box(
                g.path,
            ) {
                Some(b) => b.x1,
                None => 0,
            }
        }),
{
    let t = seq![c];
    assert(t.drop_last() =~= Seq::<char>::empty());
    assert(t.last() == c);
    assert(t[0] == c);
    assert(left_margin_from(glyphs, t, 1) == 0);
    assert(advance_sum(glyphs, t.drop_last()) == 0);
    assert(advance_sum(glyphs, t) == find_glyph(glyphs, c).unwrap().advance);
    assert(left_margin(glyphs, t) == left_margin_from(glyphs, t, 0));
}

/// A font without glyphs has height 0: the extent is seeded at 0.
pub proof fn lemma_empty_font_height(glyphs: Seq<GlyphModel>)
    requires
        glyphs.len() == 0,
    ensures
        vertical_span(outlines(glyphs)) == 0,
{
    assert(outlines(glyphs).len() == 0);
}

} // verus!
