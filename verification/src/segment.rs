//! A run of characters on its way to becoming a text item.
use crate::chars::{is_buggy_codepoint, is_whitespace, no_space_after, no_space_before};
use crate::geometry::RectF;
use crate::glyph::GlyphItem;
use crate::normalize::normalize_segment_text;
use crate::scalar::Scalar;
use crate::text::{chars_of, string_of, trim};
use crate::types::{clone_text, TextItem};
use vstd::prelude::*;

verus! {

use crate::chars::{binding, buggy, closing, white};
use crate::exact::{
    lemma_magnitude_ordered, lemma_nearest_at_least, lemma_nearest_at_most, lemma_product_at_most,
    lemma_round_numbers, lemma_shared_among, lemma_signed, one,
};
use crate::glyph::GlyphView;
use crate::normalize::{
    follows_space, lemma_ends_stay, lemma_normalized_attaches_punctuation, lemma_nothing_to_repair,
    normalized,
};
use crate::rounding::{is_nearest, lemma_cell, lemma_nearest, magnitude, nearest, INFINITE};
use crate::scalar::{fraction, lemma_order_by_value, signed};
use crate::text::{leading_white, lemma_trimmed, lemma_untrimmed, trimmed};
use crate::types::{item_views, optional_text, TextItemView};

/// Accumulates characters into a single text item.
#[derive(Debug)]
pub struct SegmentBuilder {
    pub text: Vec<char>,
    pub vp_left: Scalar,
    pub vp_right: Scalar,
    pub vp_top: Scalar,
    pub vp_bottom: Scalar,
    pub last_char_right: Scalar,
    pub last_char_bottom: Scalar,
    pub char_count: usize,
    pub font_size: Option<Scalar>,
    pub font_height: Option<Scalar>,
    pub font_is_buggy: bool,
    pub rotation_deg: Scalar,
    pub text_width: Scalar,
    pub fill_color: Option<String>,
    pub stroke_color: Option<String>,
    pub has_content: bool,
    pub pending_space: bool,
    pub last_char: Option<char>,
}

/// The contents of a [`SegmentBuilder`].
pub struct Segment {
    pub text: Seq<char>,
    pub vp_left: Scalar,
    pub vp_right: Scalar,
    pub vp_top: Scalar,
    pub vp_bottom: Scalar,
    pub last_char_right: Scalar,
    pub last_char_bottom: Scalar,
    pub char_count: int,
    pub font_size: Option<Scalar>,
    pub font_height: Option<Scalar>,
    pub font_is_buggy: bool,
    pub rotation_deg: Scalar,
    pub text_width: Scalar,
    pub fill_color: Option<Seq<char>>,
    pub stroke_color: Option<Seq<char>>,
    pub has_content: bool,
    pub pending_space: bool,
    pub last_char: Option<char>,
}

impl View for SegmentBuilder {
    type V = Segment;

    open spec fn view(&self) -> Segment {
        Segment {
            text: self.text@,
            vp_left: self.vp_left,
            vp_right: self.vp_right,
            vp_top: self.vp_top,
            vp_bottom: self.vp_bottom,
            last_char_right: self.last_char_right,
            last_char_bottom: self.last_char_bottom,
            char_count: self.char_count as int,
            font_size: self.font_size,
            font_height: self.font_height,
            font_is_buggy: self.font_is_buggy,
            rotation_deg: self.rotation_deg,
            text_width: self.text_width,
            fill_color: optional_text(self.fill_color),
            stroke_color: optional_text(self.stroke_color),
            has_content: self.has_content,
            pending_space: self.pending_space,
            last_char: self.last_char,
        }
    }
}

/// The advance of a glyph: the stated one, or the width of its tight box where none is stated.
pub open spec fn advance(strict: RectF, glyph: GlyphView) -> Scalar {
    match glyph.text_width {
        Some(width) => width,
        None => strict.spec_width().larger(signed(false, 0)),
    }
}

/// Whether `text` holds anything but dots, spaces, asterisks and hyphens.
pub open spec fn beyond_dots(text: Seq<char>) -> bool {
    exists|i: int|
        0 <= i < text.len() && {
            let c = #[trigger] text[i];
            c != '.' && c != ' ' && c != '*' && c != '-'
        }
}

impl Segment {
    /// A segment without content.
    pub open spec fn empty() -> Segment {
        Segment {
            text: Seq::empty(),
            vp_left: signed(false, INFINITE - 1),
            vp_right: signed(true, INFINITE - 1),
            vp_top: signed(false, INFINITE - 1),
            vp_bottom: signed(true, INFINITE - 1),
            last_char_right: signed(true, INFINITE - 1),
            last_char_bottom: signed(true, INFINITE - 1),
            char_count: 0,
            font_size: None,
            font_height: None,
            font_is_buggy: false,
            rotation_deg: signed(false, 0),
            text_width: signed(false, 0),
            fill_color: None,
            stroke_color: None,
            has_content: false,
            pending_space: false,
            last_char: None,
        }
    }

    /// A segment with content holds at least one character and knows its last; one without
    /// content is as new.
    pub open spec fn wf(self) -> bool {
        if self.has_content {
            self.text.len() > 0 && self.char_count > 0 && self.last_char is Some
        } else {
            self == Segment::empty()
        }
    }

    /// The mean advance of a character.
    pub open spec fn average_width(self) -> Scalar {
        if self.char_count == 0 {
            fraction(5, 1)
        } else if signed(false, 0).less(self.text_width) {
            self.text_width.quotient(fraction(self.char_count, 1))
        } else {
            self.vp_right.difference(self.vp_left).quotient(fraction(self.char_count, 1))
        }
    }

    /// A new segment that starts with `c`.
    pub open spec fn starting(c: char, loose: RectF, strict: RectF, glyph: GlyphView) -> Segment {
        Segment {
            text: seq![c],
            vp_left: loose.left,
            vp_right: loose.right,
            vp_top: loose.top,
            vp_bottom: loose.bottom,
            last_char_right: strict.right,
            last_char_bottom: strict.bottom,
            char_count: 1,
            font_size: match glyph.font_size {
                Some(size) => Some(size),
                None => Some(loose.spec_height().absolute()),
            },
            font_height: Some(loose.spec_height().absolute()),
            font_is_buggy: buggy(c as int),
            rotation_deg: glyph.rotation_deg,
            text_width: advance(strict, glyph),
            fill_color: glyph.fill_color,
            stroke_color: glyph.stroke_color,
            has_content: true,
            pending_space: false,
            last_char: Some(c),
        }
    }

    /// The segment with `c` behind it and its box widened to take `c` in.
    pub open spec fn pushed(
        self,
        c: char,
        loose: RectF,
        strict: RectF,
        glyph: GlyphView,
    ) -> Segment {
        Segment {
            text: self.text.push(c),
            vp_left: self.vp_left.smaller(loose.left),
            vp_right: self.vp_right.larger(loose.right),
            vp_top: self.vp_top.smaller(loose.top),
            vp_bottom: self.vp_bottom.larger(loose.bottom),
            last_char_right: strict.right,
            last_char_bottom: strict.bottom,
            char_count: self.char_count + 1,
            text_width: self.text_width.sum(advance(strict, glyph)),
            font_is_buggy: self.font_is_buggy || buggy(c as int),
            last_char: Some(c),
            ..self
        }
    }

    /// The segment with the rest of a ligature behind it.
    pub open spec fn with_tail(self, tail: Seq<char>) -> Segment {
        Segment {
            text: self.text + tail,
            last_char: if tail.len() > 0 {
                Some(tail.last())
            } else {
                self.last_char
            },
            ..self
        }
    }

    /// The segment after a space was drawn.
    pub open spec fn space_marked(self) -> Segment {
        Segment { pending_space: self.pending_space || self.has_content, ..self }
    }

    /// The segment with its pending space written out.
    pub open spec fn space_committed(self) -> Segment {
        Segment {
            text: if self.pending_space {
                self.text.push(' ')
            } else {
                self.text
            },
            pending_space: false,
            ..self
        }
    }

    /// Whether a gap in front of `next` stands for a space that was not drawn: no white space,
    /// hyphen, opening or closing punctuation is involved, and the gap is wider than 0.55 of the
    /// mean advance (of at least 0.1), brought into the range from 1.2 to 4.
    pub open spec fn infers_space(self, next: char, gap: Scalar) -> bool {
        let threshold = self.average_width().larger(fraction(1, 10)).product(
            fraction(55, 100),
        ).clamped(fraction(12, 10), fraction(4, 1));
        &&& !self.pending_space
        &&& !gap.at_most(signed(false, 0))
        &&& self.last_char matches Some(prev) && {
            &&& !white(prev)
            &&& !white(next)
            &&& prev != '-'
            &&& prev != '('
            &&& prev != '['
            &&& prev != '{'
            &&& !binding(prev)
            &&& !closing(next)
            &&& !binding(next)
        }
        &&& threshold.less(gap)
    }

    /// The segment with one space at its end.
    pub open spec fn space_inferred(self) -> Segment {
        Segment {
            text: if self.has_content && !(self.text.len() > 0 && self.text.last() == ' ') {
                self.text.push(' ')
            } else {
                self.text
            },
            ..self
        }
    }

    /// The text of the item that the segment becomes.
    pub open spec fn final_text(self) -> Seq<char> {
        trimmed(normalized(trimmed(self.text)))
    }

    /// The item that the segment becomes. It has none where it has no content or where nothing
    /// but white space is left of its text.
    pub open spec fn item(self) -> Option<TextItemView> {
        let height = self.vp_bottom.difference(self.vp_top);
        if self.has_content && self.final_text().len() > 0 {
            Some(
                TextItemView {
                    text: self.final_text(),
                    x: self.vp_left,
                    y: self.vp_top,
                    width: self.vp_right.difference(self.vp_left),
                    height,
                    rotation: self.rotation_deg,
                    font_name: None,
                    font_size: match self.font_size {
                        Some(size) => Some(size),
                        None => Some(height),
                    },
                    font_height: self.font_height,
                    font_ascent: None,
                    font_descent: None,
                    font_weight: None,
                    font_flags: None,
                    text_width: if signed(false, 0).less(self.text_width) {
                        Some(self.text_width)
                    } else {
                        None
                    },
                    font_is_buggy: self.font_is_buggy,
                    mcid: None,
                    fill_color: self.fill_color,
                    stroke_color: self.stroke_color,
                    confidence: None,
                },
            )
        } else {
            None
        }
    }

    /// A list of items with that of the segment behind it.
    pub open spec fn flushed(self, items: Seq<TextItemView>) -> Seq<TextItemView> {
        match self.item() {
            Some(item) => items.push(item),
            None => items,
        }
    }
}

/// Whether a text has no white space at its ends and no space in front of closing punctuation.
pub open spec fn tidy(text: Seq<char>) -> bool {
    &&& text.len() > 0 ==> !white(text[0]) && !white(text.last())
    &&& forall|i: int|
        0 <= i && i + 1 < text.len() && #[trigger] text[i] == ' ' ==> !closing(text[i + 1])
}

impl SegmentBuilder {
    /// A segment without content.
    pub fn new() -> (r: SegmentBuilder)
        ensures
            r@ == Segment::empty(),
    {
        SegmentBuilder {
            text: Vec::new(),
            vp_left: Scalar::largest(),
            vp_right: Scalar::lowest(),
            vp_top: Scalar::largest(),
            vp_bottom: Scalar::lowest(),
            last_char_right: Scalar::lowest(),
            last_char_bottom: Scalar::lowest(),
            char_count: 0,
            font_size: None,
            font_height: None,
            font_is_buggy: false,
            rotation_deg: Scalar::zero(),
            text_width: Scalar::zero(),
            fill_color: None,
            stroke_color: None,
            has_content: false,
            pending_space: false,
            last_char: None,
        }
    }

    /// The mean advance of a character, five where there is none.
    pub fn avg_char_width(&self) -> (w: Scalar)
        ensures
            w == self@.average_width(),
    {
        if self.char_count == 0 {
            return Scalar::ratio(5, 1);
        }
        let count: Scalar = Scalar::from_count(self.char_count);
        if Scalar::zero().lt(self.text_width) {
            self.text_width.over(count)
        } else {
            self.vp_right.minus(self.vp_left).over(count)
        }
    }

    fn advance_of(vp_strict: &RectF, glyph: &GlyphItem) -> (w: Scalar)
        ensures
            w == advance(*vp_strict, glyph@),
    {
        match glyph.text_width {
            Some(width) => width,
            None => vp_strict.width().max(Scalar::zero()),
        }
    }

    /// Begins the segment anew with `c`.
    pub fn start(&mut self, c: char, vp_loose: &RectF, vp_strict: &RectF, glyph: &GlyphItem)
        ensures
            final(self)@ == Segment::starting(c, *vp_loose, *vp_strict, glyph@),
    {
        let mut text: Vec<char> = Vec::new();
        text.push(c);
        self.text = text;
        self.vp_left = vp_loose.left;
        self.vp_right = vp_loose.right;
        self.vp_top = vp_loose.top;
        self.vp_bottom = vp_loose.bottom;
        self.last_char_right = vp_strict.right;
        self.last_char_bottom = vp_strict.bottom;
        self.char_count = 1;
        self.has_content = true;
        self.pending_space = false;
        self.text_width = SegmentBuilder::advance_of(vp_strict, glyph);
        self.font_size = match glyph.font_size {
            Some(size) => Some(size),
            None => Some(vp_loose.height().abs()),
        };
        self.font_height = Some(vp_loose.height().abs());
        self.rotation_deg = glyph.rotation_deg;
        self.fill_color = clone_text(&glyph.fill_color);
        self.stroke_color = clone_text(&glyph.stroke_color);
        self.font_is_buggy = is_buggy_codepoint(c as u32);
        self.last_char = Some(c);
        assert(self.text@ =~= seq![c]);
    }

    /// Appends `c` and widens the box to take it in.
    pub fn push_char(&mut self, c: char, vp_loose: &RectF, vp_strict: &RectF, glyph: &GlyphItem)
        requires
            old(self).char_count < usize::MAX,
        ensures
            final(self)@ == old(self)@.pushed(c, *vp_loose, *vp_strict, glyph@),
    {
        self.text.push(c);
        self.vp_left = self.vp_left.min(vp_loose.left);
        self.vp_right = self.vp_right.max(vp_loose.right);
        self.vp_top = self.vp_top.min(vp_loose.top);
        self.vp_bottom = self.vp_bottom.max(vp_loose.bottom);
        self.last_char_right = vp_strict.right;
        self.last_char_bottom = vp_strict.bottom;
        self.char_count = self.char_count + 1;
        self.text_width = self.text_width.plus(SegmentBuilder::advance_of(vp_strict, glyph));
        self.font_is_buggy = self.font_is_buggy || is_buggy_codepoint(c as u32);
        self.last_char = Some(c);
    }

    /// Appends the characters of a ligature past its first.
    pub fn append_ligature_tail(&mut self, tail: &str)
        ensures
            final(self)@ == old(self)@.with_tail(tail@),
    {
        let mut chars: Vec<char> = chars_of(tail);
        if chars.len() > 0 {
            self.last_char = Some(chars[chars.len() - 1]);
        }
        self.text.append(&mut chars);
    }

    /// Whether there is anything but dots, spaces, asterisks and hyphens.
    pub fn has_non_dot_content(&self) -> (b: bool)
        ensures
            b == beyond_dots(self@.text),
    {
        let mut i: usize = 0;
        while i < self.text.len()
            invariant
                i <= self.text.len(),
                forall|j: int|
                    0 <= j < i ==> {
                        let c = #[trigger] self.text@[j];
                        c == '.' || c == ' ' || c == '*' || c == '-'
                    },
            decreases self.text.len() - i,
        {
            let c: char = self.text[i];
            if c != '.' && c != ' ' && c != '*' && c != '-' {
                assert(self@.text[i as int] == c);
                return true;
            }
            i = i + 1;
        }
        false
    }

    /// Remembers that a space was drawn, where there is content for it to follow.
    pub fn mark_pending_space(&mut self)
        ensures
            final(self)@ == old(self)@.space_marked(),
    {
        if self.has_content {
            self.pending_space = true;
        }
    }

    /// Writes the pending space out.
    pub fn commit_pending_space(&mut self)
        ensures
            final(self)@ == old(self)@.space_committed(),
    {
        if self.pending_space {
            self.text.push(' ');
            self.pending_space = false;
        }
    }

    /// Whether a gap of the given width in front of `next` stands for a space.
    pub fn should_insert_inferred_space(&self, next: char, gap: Scalar) -> (b: bool)
        ensures
            b == self@.infers_space(next, gap),
    {
        if self.pending_space || gap.le(Scalar::zero()) {
            return false;
        }
        let prev: char = match self.last_char {
            Some(c) => c,
            None => {
                return false;
            },
        };
        if is_whitespace(prev) || is_whitespace(next) || prev == '-' || no_space_after(prev)
            || no_space_before(next) {
            return false;
        }
        let low: Scalar = Scalar::ratio(12, 10);
        let high: Scalar = Scalar::ratio(4, 1);
        let avg: Scalar = self.avg_char_width().max(Scalar::ratio(1, 10));
        let threshold: Scalar = avg.times(Scalar::ratio(55, 100)).clamp(low, high);
        threshold.lt(gap)
    }

    /// Appends a space, unless one is there.
    pub fn insert_inferred_space(&mut self)
        ensures
            final(self)@ == old(self)@.space_inferred(),
    {
        if self.has_content && !(self.text.len() > 0 && self.text[self.text.len() - 1] == ' ') {
            self.text.push(' ');
        }
    }

    /// Turns a segment with content into an item at the end of `items`, and begins anew.
    pub fn flush(&mut self, items: &mut Vec<TextItem>)
        ensures
            final(self)@ == (if old(self)@.has_content {
                Segment::empty()
            } else {
                old(self)@
            }),
            item_views(final(items)@) == old(self)@.flushed(item_views(old(items)@)),
    {
        if !self.has_content {
            return;
        }
        let ghost before = items@;
        let stripped: String = string_of(trim(self.text.as_slice()).as_slice());
        let repaired: String = normalize_segment_text(stripped.as_str());
        let text: Vec<char> = trim(chars_of(repaired.as_str()).as_slice());
        if text.len() > 0 {
            let width: Scalar = self.vp_right.minus(self.vp_left);
            let height: Scalar = self.vp_bottom.minus(self.vp_top);
            let item = TextItem {
                text: string_of(text.as_slice()),
                x: self.vp_left,
                y: self.vp_top,
                width,
                height,
                rotation: self.rotation_deg,
                font_name: None,
                font_size: match self.font_size {
                    Some(size) => Some(size),
                    None => Some(height),
                },
                font_height: self.font_height,
                font_ascent: None,
                font_descent: None,
                font_weight: None,
                font_flags: None,
                text_width: if Scalar::zero().lt(self.text_width) {
                    Some(self.text_width)
                } else {
                    None
                },
                font_is_buggy: self.font_is_buggy,
                mcid: None,
                fill_color: clone_text(&self.fill_color),
                stroke_color: clone_text(&self.stroke_color),
                confidence: None,
            };
            let ghost added = item@;
            items.push(item);
            assert(item_views(items@) =~= item_views(before).push(added));
        }
        *self = SegmentBuilder::new();
    }
}

/// The box of a segment only grows, and takes in the glyphs that join.
pub proof fn lemma_box_grows(seg: Segment, c: char, loose: RectF, strict: RectF, glyph: GlyphView)
    requires
        !seg.vp_left.nan() && !seg.vp_right.nan() && !seg.vp_top.nan() && !seg.vp_bottom.nan(),
        !loose.left.nan() && !loose.right.nan() && !loose.top.nan() && !loose.bottom.nan(),
    ensures
        ({
            let after = seg.pushed(c, loose, strict, glyph);
            &&& after.vp_left.at_most(seg.vp_left) && after.vp_left.at_most(loose.left)
            &&& after.vp_top.at_most(seg.vp_top) && after.vp_top.at_most(loose.top)
            &&& seg.vp_right.at_most(after.vp_right) && loose.right.at_most(after.vp_right)
            &&& seg.vp_bottom.at_most(after.vp_bottom) && loose.bottom.at_most(after.vp_bottom)
        }),
{
}

/// No gap stands for a space in front of closing punctuation, nor behind or in front of slashes
/// and quotes.
pub proof fn lemma_no_space_at_punctuation(seg: Segment, next: char, gap: Scalar)
    requires
        closing(next) || binding(next) || (seg.last_char matches Some(prev) && binding(prev)),
    ensures
        !seg.infers_space(next, gap),
{
}

/// An inferred space never follows a space.
pub proof fn lemma_one_inferred_space(seg: Segment)
    ensures
        seg.space_inferred().space_inferred() == seg.space_inferred(),
{
}

/// The text of an item has no white space at its ends and no space in front of closing
/// punctuation.
pub proof fn lemma_final_text(seg: Segment)
    ensures
        tidy(seg.final_text()),
{
    let s = normalized(trimmed(seg.text));
    lemma_normalized_attaches_punctuation(trimmed(seg.text));
    lemma_trimmed(s);
    let t = trimmed(s);
    let n = leading_white(s) as int;
    assert forall|i: int| 0 <= i && i + 1 < t.len() && #[trigger] t[i] == ' ' implies !closing(
        t[i + 1],
    ) by {
        assert(t[i] == s[n + i] && t[i + 1] == s[n + i + 1]);
    }
}

/// Whether a gap between two characters can stand for a space: neither is white, the first is none
/// of `- ( [ { / \ ' "` and the second none of `. , ; : ! ? ) ] } % / \ ' "`.
pub open spec fn separable(prev: char, next: char) -> bool {
    &&& !white(prev) && !white(next)
    &&& !"-([{/\\'\""@.contains(prev)
    &&& !".,;:!?)]}%/\\'\""@.contains(next)
}

proof fn lemma_separable(prev: char, next: char)
    ensures
        separable(prev, next) == (!white(prev) && !white(next) && prev != '-' && prev != '(' && prev
            != '[' && prev != '{' && !binding(prev) && !closing(next) && !binding(next)),
{
    reveal_strlit("-([{/\\'\"");
    reveal_strlit(".,;:!?)]}%/\\'\"");
    let a = "-([{/\\'\""@;
    let b = ".,;:!?)]}%/\\'\""@;
    assert(a.len() == 8);
    assert(b.len() == 14);
    assert(a[0] == '-' && a[1] == '(' && a[2] == '[' && a[3] == '{' && a[4] == '/' && a[5] == '\\'
        && a[6] == '\'' && a[7] == '"');
    assert(b[0] == '.' && b[1] == ',' && b[2] == ';' && b[3] == ':' && b[4] == '!' && b[5] == '?'
        && b[6] == ')' && b[7] == ']' && b[8] == '}' && b[9] == '%' && b[10] == '/' && b[11]
        == '\\' && b[12] == '\'' && b[13] == '"');
}

proof fn lemma_fraction_number(num: int, den: int)
    requires
        den > 0,
    ensures
        !fraction(num, den).nan(),
        !fraction(num, den).negative(),
        fraction(num, den).position() == nearest(num * one(), den),
{
    lemma_nearest(num * one(), den);
    lemma_signed(false, nearest(num * one(), den));
}

/// The limits for a gap: 1.2 lies between a half and four, and 0.55 of 0.1 is below a half.
proof fn lemma_gap_limits()
    ensures
        fraction(1, 2).less(fraction(12, 10)),
        fraction(12, 10).less(fraction(4, 1)),
        fraction(1, 10).product(fraction(55, 100)).at_most(fraction(1, 2)),
        !fraction(55, 100).nan() && fraction(55, 100).finite() && fraction(55, 100).position() > 0,
        !fraction(1, 10).nan(),
{
    lemma_round_numbers();
    lemma_fraction_number(12, 10);
    lemma_fraction_number(55, 100);
    lemma_fraction_number(1, 10);
    let (half, two, four) = (fraction(1, 2), fraction(2, 1), fraction(4, 1));
    lemma_fraction_number(1, 2);
    lemma_fraction_number(2, 1);
    lemma_fraction_number(4, 1);
    let one_bits = signed(false, 0x3f80_0000);
    lemma_signed(false, 0x3f80_0000);
    assert(one_bits.value() == one()) by {
        lemma_cell(126, 0x80_0000);
        vstd::arithmetic::power2::lemma2_to64();
        vstd::arithmetic::power2::lemma_pow2_adds(23, 126);
    }
    lemma_nearest_at_least(12 * one(), 10, one_bits.position());
    lemma_nearest_at_most(12 * one(), 10, two.position());
    lemma_order_by_value(half, one_bits);
    lemma_order_by_value(two, four);
    lemma_nearest_at_most(one(), 10, half.position());
    lemma_nearest_at_most(55 * one(), 100, one_bits.position());
    lemma_nearest_at_least(55 * one(), 100, half.position());
    lemma_order_by_value(signed(false, 0), half);
    let (a, b) = (fraction(1, 10), fraction(55, 100));
    lemma_order_by_value(a, half);
    lemma_order_by_value(b, one_bits);
    lemma_magnitude_ordered(0, a.position());
    lemma_magnitude_ordered(0, b.position());
    assert(a.value() * b.value() <= half.value() * one()) by (nonlinear_arith)
        requires
            0 <= a.value() <= half.value(),
            0 <= b.value() <= one(),
    ;
    lemma_product_at_most(a, b, half);
}

proof fn lemma_product_number(a: Scalar, b: Scalar)
    requires
        !a.nan(),
        b.finite() && b.position() > 0,
    ensures
        !a.product(b).nan(),
{
    reveal(Scalar::product);
    vstd::arithmetic::power2::lemma_pow2_pos(149);
    let num = magnitude(a.position()) * magnitude(b.position());
    lemma_nearest(num, one());
    lemma_signed(a.negative() != b.negative(), nearest(num, one()));
    lemma_signed(a.negative() != b.negative(), INFINITE as int);
}

/// When a gap stands for a space that was not drawn. Between characters that a space can separate,
/// and with no drawn space waiting, one is inferred where the gap is over four, or over 1.2 and
/// over 0.55 of the mean advance. None is inferred behind a drawn space, between other characters,
/// or where the gap is at most 1.2, or at most four and at most 0.55 of the mean advance.
pub proof fn lemma_when_space_is_inferred(seg: Segment, prev: char, next: char, gap: Scalar)
    requires
        seg.last_char == Some(prev),
    ensures
        ({
            let mean = seg.average_width();
            &&& !seg.pending_space && separable(prev, next) && !gap.nan() && {
                ||| gap.finite() && gap.value() > 4 * one()
                ||| fraction(12, 10).less(gap) && !gap.at_most(mean.product(fraction(55, 100)))
            } ==> seg.infers_space(next, gap)
            &&& {
                ||| seg.pending_space
                ||| !separable(prev, next)
                ||| gap.nan()
                ||| gap.at_most(fraction(12, 10))
                ||| gap.finite() && gap.value() <= 4 * one() && fraction(1, 10).at_most(mean)
                    && gap.at_most(mean.product(fraction(55, 100)))
            } ==> !seg.infers_space(next, gap)
        }),
{
    lemma_separable(prev, next);
    lemma_gap_limits();
    lemma_round_numbers();
    let (low, high) = (fraction(12, 10), fraction(4, 1));
    let mean = seg.average_width();
    let wide = mean.larger(fraction(1, 10));
    let share = wide.product(fraction(55, 100));
    lemma_product_number(wide, fraction(55, 100));
    lemma_fraction_number(1, 2);
    if gap.finite() {
        lemma_order_by_value(high, gap);
        lemma_order_by_value(gap, high);
    }
    if fraction(1, 10).at_most(mean) {
        assert(wide == mean);
    } else {
        assert(wide == fraction(1, 10));
    }
}

/// The mean advance of a segment is the number nearest to its advances over its characters, or to
/// the width of its box over them where the advances come to nothing; before any character it is
/// five.
pub proof fn lemma_mean_advance(seg: Segment)
    requires
        0 <= seg.char_count < 0x100_0000,
    ensures
        ({
            let mean = seg.average_width();
            let width = seg.vp_right.difference(seg.vp_left);
            let n = seg.char_count;
            &&& n == 0 ==> mean.finite() && mean.value() == 5 * one()
            &&& n > 0 && seg.text_width.finite() && seg.text_width.value() > 0
                ==> !mean.negative() && is_nearest(seg.text_width.value(), n, mean.position())
            &&& n > 0 && seg.text_width.finite() && seg.text_width.value() <= 0 && width.finite()
                && width.value() > 0 ==> !mean.negative() && is_nearest(
                width.value(),
                n,
                mean.position(),
            )
        }),
{
    lemma_round_numbers();
    let width = seg.vp_right.difference(seg.vp_left);
    if seg.text_width.finite() {
        lemma_order_by_value(signed(false, 0), seg.text_width);
    }
    if seg.char_count > 0 {
        if seg.text_width.finite() && seg.text_width.value() > 0 {
            lemma_shared_among(seg.text_width, seg.char_count);
        } else if width.finite() && width.value() > 0 {
            lemma_shared_among(width, seg.char_count);
        }
    }
}

/// A text with no white space at its ends and nothing to repair becomes the text of its item as
/// it is.
pub proof fn lemma_final_text_unchanged(seg: Segment)
    requires
        seg.text.len() > 0,
        !white(seg.text[0]) && !white(seg.text.last()),
        forall|i: int, j: int|
            #[trigger] follows_space(seg.text, i, j) ==> !".,;:!?)]}%"@.contains(seg.text[j]),
        forall|i: int|
            0 <= i && i + 1 < seg.text.len() && #[trigger] seg.text[i] == '.' ==> seg.text[i + 1]
                != ' ',
    ensures
        seg.final_text() == seg.text,
{
    lemma_untrimmed(seg.text);
    lemma_nothing_to_repair(seg.text);
}

/// The text of an item is the text of its segment from the first to the last character that is not
/// white, repaired.
pub proof fn lemma_final_text_core(seg: Segment, start: int, end: int)
    requires
        0 <= start < end <= seg.text.len(),
        !white(seg.text[start]) && !white(seg.text[end - 1]),
        forall|i: int|
            0 <= i < start || end <= i < seg.text.len() ==> white(#[trigger] seg.text[i]),
    ensures
        seg.final_text() == normalized(seg.text.subrange(start, end)),
{
    let s = seg.text;
    lemma_trimmed(s);
    let t = trimmed(s);
    let n = leading_white(s) as int;
    let core = s.subrange(start, end);
    assert(t.len() > 0) by {
        if t.len() == 0 {
            assert(white(s[start]));
        }
    }
    assert(n == start) by {
        assert(t[0] == s[n] && t.last() == s[n + t.len() - 1]);
        if n < start {
            assert(white(s[n]));
        }
        if n > start {
            assert(white(s[start]));
        }
    }
    assert(n + t.len() == end) by {
        if n + t.len() < end {
            assert(white(s[end - 1]));
        }
        if n + t.len() > end {
            assert(white(s[n + t.len() - 1]));
        }
    }
    assert(t =~= core);
    lemma_ends_stay(core);
    lemma_untrimmed(normalized(core));
}

} // verus!
