//! Glyphs as a page draws them.
use crate::chars::{is_control, is_whitespace};
use crate::geometry::{ImageBounds, RectF};
use crate::scalar::Scalar;
use vstd::prelude::*;

verus! {

use crate::chars::{control, white};
use crate::exact::{lemma_difference_nearest, lemma_signed, measures};
use crate::scalar::{lemma_order_by_value, signed};
use crate::types::optional_text;

/// One drawn character.
#[derive(Clone, Debug)]
pub struct GlyphItem {
    pub text: char,
    pub loose: RectF,
    pub strict: RectF,
    pub invisible: bool,
    pub rotation_deg: Scalar,
    pub font_size: Option<Scalar>,
    pub text_width: Option<Scalar>,
    pub fill_color: Option<String>,
    pub stroke_color: Option<String>,
}

/// The contents of a [`GlyphItem`].
pub struct GlyphView {
    pub text: char,
    pub loose: RectF,
    pub strict: RectF,
    pub invisible: bool,
    pub rotation_deg: Scalar,
    pub font_size: Option<Scalar>,
    pub text_width: Option<Scalar>,
    pub fill_color: Option<Seq<char>>,
    pub stroke_color: Option<Seq<char>>,
}

impl View for GlyphItem {
    type V = GlyphView;

    open spec fn view(&self) -> GlyphView {
        GlyphView {
            text: self.text,
            loose: self.loose,
            strict: self.strict,
            invisible: self.invisible,
            rotation_deg: self.rotation_deg,
            font_size: self.font_size,
            text_width: self.text_width,
            fill_color: optional_text(self.fill_color),
            stroke_color: optional_text(self.stroke_color),
        }
    }
}

/// The contents of a list of glyphs.
pub open spec fn glyph_views(glyphs: Seq<GlyphItem>) -> Seq<GlyphView> {
    glyphs.map_values(|glyph: GlyphItem| glyph@)
}

/// How a glyph is painted.
#[derive(Clone, Copy, Debug, PartialEq, Eq, Structural)]
pub enum GlyphDrawMode {
    Fill,
    Stroke,
    Invisible,
}

/// What a glyph is and where it stands: its character and the coefficients of its transform, in
/// thousandths.
#[derive(Clone, Copy, Debug)]
pub struct GlyphKey {
    pub text: char,
    pub coeffs: [i64; 6],
}

impl View for GlyphKey {
    type V = (char, Seq<i64>);

    open spec fn view(&self) -> (char, Seq<i64>) {
        (self.text, self.coeffs@)
    }
}

impl GlyphKey {
    fn same(&self, other: &GlyphKey) -> (b: bool)
        ensures
            b == (self@ == other@),
    {
        if self.text != other.text {
            return false;
        }
        let mut i: usize = 0;
        while i < 6
            invariant
                i <= 6,
                forall|j: int| 0 <= j < i ==> self.coeffs@[j] == other.coeffs@[j],
            decreases 6 - i,
        {
            if self.coeffs[i] != other.coeffs[i] {
                return false;
            }
            i = i + 1;
        }
        assert(self.coeffs@ =~= other.coeffs@);
        true
    }
}

/// A lowercase hexadecimal digit.
pub open spec fn hex_digit(d: int) -> char {
    if d < 10 {
        (d + '0' as int) as char
    } else {
        (d - 10 + 'a' as int) as char
    }
}

/// A byte as two lowercase hexadecimal digits.
pub open spec fn hex_byte(b: u8) -> Seq<char> {
    seq![hex_digit(b as int / 16), hex_digit(b as int % 16)]
}

/// A color as eight hexadecimal digits: alpha, red, green, blue.
pub open spec fn argb(color: (u8, u8, u8, u8)) -> Seq<char> {
    hex_byte(color.3) + hex_byte(color.0) + hex_byte(color.1) + hex_byte(color.2)
}

fn push_hex(s: &mut String, b: u8)
    ensures
        final(s)@ == old(s)@ + hex_byte(b),
{
    let (high, low): (u8, u8) = (b / 16, b % 16);
    s.push(
        if high < 10 {
            (high + 48) as char
        } else {
            (high + 87) as char
        },
    );
    s.push(
        if low < 10 {
            (low + 48) as char
        } else {
            (low + 87) as char
        },
    );
    assert(s@ == old(s)@ + hex_byte(b));
}

/// Writes a color given as red, green, blue and alpha as `aarrggbb`.
pub fn argb_hex(color: (u8, u8, u8, u8)) -> (s: String)
    ensures
        s@ == argb(color),
{
    let mut s: String = String::new();
    push_hex(&mut s, color.3);
    push_hex(&mut s, color.0);
    push_hex(&mut s, color.1);
    push_hex(&mut s, color.2);
    assert(s@ == argb(color));
    s
}

/// Gathers the glyphs and images of one page.
#[derive(Debug)]
pub struct PageContentCollector {
    pub glyphs: Vec<GlyphItem>,
    pub image_bounds: Vec<ImageBounds>,
    pub last_glyph: Option<GlyphKey>,
}

/// The contents of a [`PageContentCollector`].
pub struct ContentView {
    pub glyphs: Seq<GlyphView>,
    pub image_bounds: Seq<ImageBounds>,
    pub last_glyph: Option<(char, Seq<i64>)>,
}

impl View for PageContentCollector {
    type V = ContentView;

    open spec fn view(&self) -> ContentView {
        ContentView {
            glyphs: glyph_views(self.glyphs@),
            image_bounds: self.image_bounds@,
            last_glyph: match self.last_glyph {
                Some(key) => Some(key@),
                None => None,
            },
        }
    }
}

impl ContentView {
    /// Before anything is drawn.
    pub open spec fn empty() -> ContentView {
        ContentView { glyphs: Seq::empty(), image_bounds: Seq::empty(), last_glyph: None }
    }

    /// Whether a glyph is the outline of the one drawn just before it.
    pub open spec fn repeats(self, key: (char, Seq<i64>), draw_mode: GlyphDrawMode) -> bool {
        draw_mode is Stroke && self.last_glyph == Some(key)
    }

    /// After a glyph with the given key and bounds is recorded.
    pub open spec fn with_glyph(
        self,
        key: (char, Seq<i64>),
        draw_mode: GlyphDrawMode,
        bounds: RectF,
        rotation_deg: Scalar,
        font_size: Scalar,
        color: Option<(u8, u8, u8, u8)>,
    ) -> ContentView {
        let hex = match color {
            Some(color) => Some(argb(color)),
            None => None,
        };
        ContentView {
            glyphs: self.glyphs.push(
                GlyphView {
                    text: key.0,
                    loose: bounds,
                    strict: bounds,
                    invisible: draw_mode is Invisible,
                    rotation_deg,
                    font_size: if signed(false, 0).less(font_size) {
                        Some(font_size)
                    } else {
                        None
                    },
                    text_width: Some(bounds.spec_width().larger(signed(false, 0))),
                    fill_color: if draw_mode is Stroke {
                        None
                    } else {
                        hex
                    },
                    stroke_color: if draw_mode is Stroke {
                        hex
                    } else {
                        None
                    },
                },
            ),
            image_bounds: self.image_bounds,
            last_glyph: Some(key),
        }
    }
}

impl Default for PageContentCollector {
    fn default() -> (r: PageContentCollector)
        ensures
            r@ == ContentView::empty(),
    {
        let r = PageContentCollector {
            glyphs: Vec::new(),
            image_bounds: Vec::new(),
            last_glyph: None,
        };
        assert(r@.glyphs =~= Seq::empty());
        r
    }
}

impl PageContentCollector {
    /// Records a glyph: its character, the coefficients of its transform in thousandths, its
    /// bounds, the angle and size of its font and the red, green, blue and alpha of a plain
    /// color.
    ///
    /// A glyph without a character, one without bounds, and the outline of the glyph drawn just
    /// before leave no trace.
    pub fn draw_glyph(
        &mut self,
        text: Option<char>,
        coeffs: [i64; 6],
        draw_mode: GlyphDrawMode,
        bounds: Option<RectF>,
        rotation_deg: Scalar,
        font_size: Scalar,
        color: Option<(u8, u8, u8, u8)>,
    )
        ensures
            final(self)@ == (match (text, bounds) {
                (Some(c), Some(rect)) => if old(self)@.repeats((c, coeffs@), draw_mode) {
                    old(self)@
                } else {
                    old(self)@.with_glyph(
                        (c, coeffs@),
                        draw_mode,
                        rect,
                        rotation_deg,
                        font_size,
                        color,
                    )
                },
                _ => old(self)@,
            }),
    {
        let text: char = match text {
            Some(c) => c,
            None => {
                return;
            },
        };
        let key = GlyphKey { text, coeffs };
        if draw_mode == GlyphDrawMode::Stroke {
            if let Some(last) = &self.last_glyph {
                if last.same(&key) {
                    return;
                }
            }
        }
        let bounds: RectF = match bounds {
            Some(rect) => rect,
            None => {
                return;
            },
        };
        let hex: Option<String> = match color {
            Some(color) => Some(argb_hex(color)),
            None => None,
        };
        let (fill_color, stroke_color): (Option<String>, Option<String>) = match draw_mode {
            GlyphDrawMode::Stroke => (None, hex),
            GlyphDrawMode::Fill | GlyphDrawMode::Invisible => (hex, None),
        };
        let glyph = GlyphItem {
            text,
            loose: bounds,
            strict: bounds,
            invisible: draw_mode == GlyphDrawMode::Invisible,
            rotation_deg,
            font_size: if Scalar::zero().lt(font_size) {
                Some(font_size)
            } else {
                None
            },
            text_width: Some(bounds.width().max(Scalar::zero())),
            fill_color,
            stroke_color,
        };
        let ghost before = self.glyphs@;
        let ghost added = glyph@;
        self.glyphs.push(glyph);
        self.last_glyph = Some(key);
        assert(glyph_views(self.glyphs@) =~= glyph_views(before).push(added));
    }

    /// Records an image by its bounds. One without bounds leaves no trace.
    pub fn draw_image(&mut self, bounds: Option<RectF>)
        ensures
            final(self)@ == (match bounds {
                Some(rect) => (ContentView {
                    image_bounds: old(self)@.image_bounds.push(ImageBounds::covering(rect)),
                    ..old(self)@
                }),
                None => old(self)@,
            }),
    {
        if let Some(rect) = bounds {
            self.image_bounds.push(
                ImageBounds {
                    x: rect.left,
                    y: rect.top,
                    width: rect.width(),
                    height: rect.height(),
                },
            );
        }
    }
}

/// A glyph that shows something: neither white space nor a control character.
pub open spec fn printable(glyph: GlyphView) -> bool {
    !white(glyph.text) && !control(glyph.text)
}

/// The number of printable glyphs with the given visibility.
pub open spec fn printable_count(glyphs: Seq<GlyphView>, invisible: bool) -> nat
    decreases glyphs.len(),
{
    if glyphs.len() == 0 {
        0
    } else {
        let glyph = glyphs.last();
        printable_count(glyphs.drop_last(), invisible) + (if printable(glyph) && glyph.invisible
            == invisible {
            1nat
        } else {
            0
        })
    }
}

/// Whether invisible glyphs are few enough to be noise: less than three tenths of the printable
/// ones, with both kinds present.
pub open spec fn skips_invisible(glyphs: Seq<GlyphView>) -> bool {
    let visible = printable_count(glyphs, false);
    let invisible = printable_count(glyphs, true);
    visible > 0 && invisible > 0 && 10 * invisible < 3 * (visible + invisible)
}

/// Whether the invisible glyphs of a page are to be left out.
pub fn should_skip_invisible(glyphs: &[GlyphItem]) -> (b: bool)
    ensures
        b == skips_invisible(glyph_views(glyphs@)),
{
    let mut visible: usize = 0;
    let mut invisible: usize = 0;
    let mut i: usize = 0;
    let ghost views = glyph_views(glyphs@);
    while i < glyphs.len()
        invariant
            i <= glyphs.len(),
            views == glyph_views(glyphs@),
            visible + invisible <= i,
            visible == printable_count(views.take(i as int), false),
            invisible == printable_count(views.take(i as int), true),
        decreases glyphs.len() - i,
    {
        proof {
            assert(views.take(i + 1).drop_last() == views.take(i as int));
        }
        let c: char = glyphs[i].text;
        if !is_whitespace(c) && !is_control(c) {
            if glyphs[i].invisible {
                invisible = invisible + 1;
            } else {
                visible = visible + 1;
            }
        }
        i = i + 1;
    }
    assert(views.take(i as int) == views);
    visible > 0 && invisible > 0 && 10 * (invisible as u128) < 3 * (visible as u128
        + invisible as u128)
}

/// The box that stands in for a glyph without an outline, in thousandths of an em: its left,
/// top, right and bottom. A space is a quarter of an em wide.
pub open spec fn fallback_box(text: char) -> (int, int, int, int) {
    (0, -1000, if text == ' ' { 250 } else { 1000 }, 200)
}

/// The box of a glyph without an outline.
pub fn fallback_glyph_box(text: char) -> (r: (i32, i32, i32, i32))
    ensures
        (r.0 as int, r.1 as int, r.2 as int, r.3 as int) == fallback_box(text),
{
    let em_width: i32 = if text == ' ' { 250 } else { 1000 };
    (0, -1000, em_width, 200)
}

/// A glyph that is painted and then outlined in place is recorded once, as it was painted.
pub proof fn lemma_outline_adds_nothing(
    content: ContentView,
    key: (char, Seq<i64>),
    draw_mode: GlyphDrawMode,
    bounds: RectF,
    rotation_deg: Scalar,
    font_size: Scalar,
    color: Option<(u8, u8, u8, u8)>,
)
    ensures
        content.with_glyph(key, draw_mode, bounds, rotation_deg, font_size, color).repeats(
            key,
            GlyphDrawMode::Stroke,
        ),
{
}

/// A color is written in eight digits, and different colors are written differently.
pub proof fn lemma_argb_injective(a: (u8, u8, u8, u8), b: (u8, u8, u8, u8))
    ensures
        argb(a).len() == 8,
        argb(a) == argb(b) ==> a == b,
{
    if argb(a) == argb(b) {
        let (s, t) = (argb(a), argb(b));
        assert(s[0] == hex_digit(a.3 as int / 16) && s[1] == hex_digit(a.3 as int % 16));
        assert(s[2] == hex_digit(a.0 as int / 16) && s[3] == hex_digit(a.0 as int % 16));
        assert(s[4] == hex_digit(a.1 as int / 16) && s[5] == hex_digit(a.1 as int % 16));
        assert(s[6] == hex_digit(a.2 as int / 16) && s[7] == hex_digit(a.2 as int % 16));
        assert(t[0] == hex_digit(b.3 as int / 16) && t[1] == hex_digit(b.3 as int % 16));
        assert(t[2] == hex_digit(b.0 as int / 16) && t[3] == hex_digit(b.0 as int % 16));
        assert(t[4] == hex_digit(b.1 as int / 16) && t[5] == hex_digit(b.1 as int % 16));
        assert(t[6] == hex_digit(b.2 as int / 16) && t[7] == hex_digit(b.2 as int % 16));
    }
}

proof fn lemma_none_printable(glyphs: Seq<GlyphView>, invisible: bool)
    requires
        forall|i: int|
            0 <= i < glyphs.len() && printable(#[trigger] glyphs[i]) ==> glyphs[i].invisible
                != invisible,
    ensures
        printable_count(glyphs, invisible) == 0,
    decreases glyphs.len(),
{
    if glyphs.len() > 0 {
        let rest = glyphs.drop_last();
        assert forall|i: int| 0 <= i < rest.len() && printable(#[trigger] rest[i]) implies rest[i].invisible
            != invisible by {
            assert(rest[i] == glyphs[i]);
        }
        lemma_none_printable(rest, invisible);
    }
}

/// Text that is only invisible is kept: where no printable glyph is visible, none is skipped.
pub proof fn lemma_invisible_only_kept(glyphs: Seq<GlyphView>)
    requires
        forall|i: int|
            0 <= i < glyphs.len() && printable(#[trigger] glyphs[i]) ==> glyphs[i].invisible,
    ensures
        !skips_invisible(glyphs),
{
    lemma_none_printable(glyphs, false);
}

/// The glyphs that show something, of one visibility.
pub open spec fn printable_only(glyphs: Seq<GlyphView>, invisible: bool) -> Seq<GlyphView> {
    glyphs.filter(
        |g: GlyphView|
            g.invisible == invisible && !white(g.text) && ('\u{20}' <= g.text < '\u{7f}' || '\u{9f}'
                < g.text),
    )
}

proof fn lemma_printable_count(glyphs: Seq<GlyphView>, invisible: bool)
    ensures
        printable_count(glyphs, invisible) == printable_only(glyphs, invisible).len(),
    decreases glyphs.len(),
{
    reveal(Seq::filter);
    if glyphs.len() > 0 {
        lemma_printable_count(glyphs.drop_last(), invisible);
    }
}

/// Invisible glyphs are skipped where they are less than thirty in a hundred of those that show
/// something, and both kinds are there.
pub proof fn lemma_skipped_below_thirty_percent(glyphs: Seq<GlyphView>)
    ensures
        ({
            let visible = printable_only(glyphs, false).len();
            let invisible = printable_only(glyphs, true).len();
            skips_invisible(glyphs) <==> 0 < visible && 0 < invisible && 100 * invisible < 30 * (
            visible + invisible)
        }),
{
    lemma_printable_count(glyphs, false);
    lemma_printable_count(glyphs, true);
}

/// Only an outline is ever left out, and only behind the same character in the same place.
pub proof fn lemma_only_outlines_are_dropped(
    content: ContentView,
    key: (char, Seq<i64>),
    draw_mode: GlyphDrawMode,
)
    requires
        !(draw_mode is Stroke) || content.last_glyph != Some(key),
    ensures
        !content.repeats(key, draw_mode),
{
}

/// What is recorded of a glyph: its character, its bounds as both boxes, its advance as the width
/// of the bounds, and its color, as that of a stroke for an outline and as that of the filling
/// otherwise. What was recorded before stays.
pub proof fn lemma_recorded_glyph(
    content: ContentView,
    c: char,
    coeffs: Seq<i64>,
    draw_mode: GlyphDrawMode,
    bounds: RectF,
    rotation_deg: Scalar,
    font_size: Scalar,
    color: Option<(u8, u8, u8, u8)>,
)
    requires
        bounds.proper(),
    ensures
        ({
            let after = content.with_glyph(
                (c, coeffs),
                draw_mode,
                bounds,
                rotation_deg,
                font_size,
                color,
            );
            let g = after.glyphs.last();
            let hex = match color {
                Some(color) => Some(argb(color)),
                None => None,
            };
            &&& after.glyphs.len() == content.glyphs.len() + 1
            &&& after.glyphs.drop_last() == content.glyphs
            &&& after.image_bounds == content.image_bounds
            &&& after.last_glyph == Some((c, coeffs))
            &&& g.text == c
            &&& g.loose == bounds && g.strict == bounds
            &&& g.rotation_deg == rotation_deg
            &&& g.invisible == (draw_mode == GlyphDrawMode::Invisible)
            &&& g.text_width matches Some(width) && measures(width, bounds.left, bounds.right)
            &&& font_size.finite() && font_size.value() > 0 ==> g.font_size == Some(font_size)
            &&& font_size.finite() && font_size.value() <= 0 ==> g.font_size is None
            &&& draw_mode == GlyphDrawMode::Stroke ==> g.stroke_color == hex && g.fill_color is None
            &&& draw_mode != GlyphDrawMode::Stroke ==> g.fill_color == hex && g.stroke_color is None
        }),
{
    let after = content.with_glyph(
        (c, coeffs),
        draw_mode,
        bounds,
        rotation_deg,
        font_size,
        color,
    );
    assert(after.glyphs.drop_last() =~= content.glyphs);
    lemma_order_by_value(bounds.left, bounds.right);
    lemma_difference_nearest(bounds.right, bounds.left);
    lemma_signed(false, 0);
    if font_size.finite() {
        lemma_order_by_value(signed(false, 0), font_size);
    }
}

/// A color is written as two hexadecimal digits each of alpha, red, green and blue.
pub proof fn lemma_argb_digits(color: (u8, u8, u8, u8))
    ensures
        ({
            let digits = "0123456789abcdef"@;
            argb(color) == seq![
                digits[color.3 as int / 16],
                digits[color.3 as int % 16],
                digits[color.0 as int / 16],
                digits[color.0 as int % 16],
                digits[color.1 as int / 16],
                digits[color.1 as int % 16],
                digits[color.2 as int / 16],
                digits[color.2 as int % 16],
            ]
        }),
{
    lemma_hex_digit(color.3 as int / 16);
    lemma_hex_digit(color.3 as int % 16);
    lemma_hex_digit(color.0 as int / 16);
    lemma_hex_digit(color.0 as int % 16);
    lemma_hex_digit(color.1 as int / 16);
    lemma_hex_digit(color.1 as int % 16);
    lemma_hex_digit(color.2 as int / 16);
    lemma_hex_digit(color.2 as int % 16);
}

proof fn lemma_hex_digit(d: int)
    requires
        0 <= d < 16,
    ensures
        hex_digit(d) == "0123456789abcdef"@[d],
{
    reveal_strlit("0123456789abcdef");
}

/// Every glyph without an outline but the space stands in a full em, a space in a quarter of one,
/// and both reach from one em above to a fifth below.
pub proof fn lemma_fallback_box(c: char)
    ensures
        fallback_box(c).0 == 0 && fallback_box(c).1 == -1000 && fallback_box(c).3 == 200,
        c == ' ' ==> 4 * fallback_box(c).2 == 1000,
        c != ' ' ==> fallback_box(c).2 == 1000,
{
}

} // verus!
