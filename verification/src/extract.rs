//! From the glyphs of a page to its text items.
use crate::chars::is_control;
use crate::dedup::dedup_overlapping_items;
use crate::geometry::RectF;
use crate::glyph::{should_skip_invisible, GlyphItem};
use crate::scalar::Scalar;
use crate::segment::SegmentBuilder;
use crate::types::TextItem;
use vstd::prelude::*;

verus! {

use crate::chars::{control, white};
use crate::dedup::{
    deduplicated, duplicates, lemma_deduplicated_distinct, lemma_deduplicated_survivors,
    repeated_later, survivors,
};
use crate::exact::{
    lemma_difference_at_least, lemma_half, lemma_negated, lemma_round_numbers, lemma_sum_at_most,
    one,
};
use crate::glyph::{glyph_views, skips_invisible, GlyphView};
use crate::scalar::{fraction, lemma_order_by_value};
use crate::segment::{beyond_dots, lemma_final_text, tidy, Segment};
use crate::normalize::{lemma_normalized_letters, normalized};
use crate::text::{lemma_letters_push, lemma_trimmed_letters, letters, trimmed};
use crate::types::{item_views, TextItemView};

/// The characters that a code stands for in fonts that put ligatures at control codes: the
/// first, and the others.
///
/// Items hold no such spelling: all these codes are control characters, which
/// [`Progress::step`] passes over before it places a glyph.
pub open spec fn ligature(c: char) -> (char, Seq<char>) {
    if c == '\u{2}' {
        ('-', seq![])
    } else if c == '\u{1a}' {
        ('f', seq!['f'])
    } else if c == '\u{1b}' {
        ('f', seq!['t'])
    } else if c == '\u{1c}' {
        ('f', seq!['i'])
    } else if c == '\u{1d}' {
        ('T', seq!['h'])
    } else if c == '\u{1e}' {
        ('f', seq!['f', 'i'])
    } else if c == '\u{1f}' {
        ('f', seq!['l'])
    } else {
        (c, seq![])
    }
}

/// Spells out a ligature code. Any other character stays alone, and so does every character that
/// [`extract_page_text_items`] places, since it passes over control characters.
pub fn expand_ligature(c: char) -> (r: (char, &'static str))
    ensures
        (r.0, r.1@) == ligature(c),
{
    proof {
        reveal_strlit("");
        reveal_strlit("f");
        reveal_strlit("t");
        reveal_strlit("i");
        reveal_strlit("h");
        reveal_strlit("fi");
        reveal_strlit("l");
    }
    let r: (char, &'static str) = match c as u32 {
        0x02 => ('-', ""),
        0x1A => ('f', "f"),
        0x1B => ('f', "t"),
        0x1C => ('f', "i"),
        0x1D => ('T', "h"),
        0x1E => ('f', "fi"),
        0x1F => ('f', "l"),
        _ => (c, ""),
    };
    assert(r.1@ =~= ligature(c).1);
    r
}

/// The horizontal gap between the segment and a glyph.
pub open spec fn gap(seg: Segment, glyph: GlyphView) -> Scalar {
    glyph.strict.left.difference(seg.last_char_right)
}

/// Whether a glyph shares the line of the segment, within a tolerance of two.
pub open spec fn shares_line(seg: Segment, glyph: GlyphView) -> bool {
    &&& glyph.loose.top.less(seg.vp_bottom.sum(fraction(2, 1)))
    &&& seg.vp_top.difference(fraction(2, 1)).less(glyph.loose.bottom)
}

/// Whether a glyph opens another line: it lies clearly below the last character, or below it
/// and more than five to the left, or it jumps back over more than half of a segment wider than
/// twenty.
pub open spec fn changes_line(seg: Segment, glyph: GlyphView) -> bool {
    let width = seg.vp_right.difference(seg.vp_left);
    ||| seg.last_char_bottom.sum(fraction(2, 1)).less(glyph.strict.top)
    ||| seg.last_char_bottom.less(glyph.strict.top) && gap(seg, glyph).less(
        fraction(5, 1).negated(),
    )
    ||| fraction(20, 1).less(width) && gap(seg, glyph).less(
        width.product(fraction(1, 2)).negated(),
    )
}

/// Whether a dot leader starts or ends in front of `c`.
pub open spec fn leader_break(seg: Segment, c: char, glyph: GlyphView) -> bool {
    if seg.pending_space {
        ||| c == '.' && beyond_dots(seg.text)
        ||| c != '.' && !beyond_dots(seg.text) && seg.char_count >= 3
    } else {
        c == '.' && beyond_dots(seg.text) && seg.average_width().product(fraction(14, 10)).less(
            gap(seg, glyph),
        )
    }
}

/// Whether a glyph cannot continue the segment.
pub open spec fn separates(seg: Segment, c: char, glyph: GlyphView) -> bool {
    ||| !shares_line(seg, glyph)
    ||| changes_line(seg, glyph)
    ||| fraction(15, 1).at_most(gap(seg, glyph))
    ||| leader_break(seg, c, glyph)
    ||| seg.pending_space && seg.average_width().product(fraction(22, 10)).less(gap(seg, glyph))
}

/// The segment that takes in the next glyph, which continues it.
pub open spec fn continued(seg: Segment, c: char, glyph: GlyphView) -> Segment {
    let spaced = if seg.pending_space {
        seg.space_committed()
    } else if seg.infers_space(c, gap(seg, glyph)) {
        seg.space_inferred()
    } else {
        seg
    };
    spaced.pushed(c, glyph.loose, glyph.strict, glyph)
}

/// A segment under way, and the items before it.
pub struct Progress {
    pub seg: Segment,
    pub items: Seq<TextItemView>,
}

impl Progress {
    /// Before the first glyph.
    pub open spec fn start() -> Progress {
        Progress { seg: Segment::empty(), items: Seq::empty() }
    }

    /// After the segment is turned into an item.
    pub open spec fn flushed(self) -> Progress {
        Progress { seg: Segment::empty(), items: self.seg.flushed(self.items) }
    }

    /// After a glyph that shows a character.
    pub open spec fn placed(self, glyph: GlyphView) -> Progress {
        let (c, tail) = ligature(glyph.text);
        if self.seg.has_content && !separates(self.seg, c, glyph) {
            Progress { seg: continued(self.seg, c, glyph).with_tail(tail), items: self.items }
        } else {
            Progress {
                seg: Segment::starting(c, glyph.loose, glyph.strict, glyph).with_tail(tail),
                items: self.flushed().items,
            }
        }
    }

    /// After one glyph: a line break ends the segment, a space is remembered, other control
    /// characters and glyphs lower than one half are passed over, and so are invisible glyphs
    /// where `skip_invisible` says so.
    pub open spec fn step(self, glyph: GlyphView, skip_invisible: bool) -> Progress {
        let c = glyph.text;
        if skip_invisible && glyph.invisible {
            self
        } else if c == '\n' || c == '\r' {
            self.flushed()
        } else if c == ' ' {
            Progress { seg: self.seg.space_marked(), items: self.items }
        } else if control(c) || glyph.loose.spec_height().less(fraction(1, 2)) {
            self
        } else {
            self.placed(glyph)
        }
    }
}

/// After the first `n` glyphs.
pub open spec fn progress(glyphs: Seq<GlyphView>, skip_invisible: bool, n: int) -> Progress
    decreases n,
{
    if n <= 0 {
        Progress::start()
    } else {
        progress(glyphs, skip_invisible, n - 1).step(glyphs[n - 1], skip_invisible)
    }
}

/// The items of a page before duplicates go.
pub open spec fn grouped(glyphs: Seq<GlyphView>) -> Seq<TextItemView> {
    progress(glyphs, skips_invisible(glyphs), glyphs.len() as int).flushed().items
}

/// The items of a page.
pub open spec fn page_items(glyphs: Seq<GlyphView>) -> Seq<TextItemView> {
    deduplicated(grouped(glyphs))
}

/// A segment that starts anew or grows stays well-formed.
proof fn lemma_step_wf(p: Progress, glyph: GlyphView, skip_invisible: bool)
    requires
        p.seg.wf(),
    ensures
        p.step(glyph, skip_invisible).seg.wf(),
        p.step(glyph, skip_invisible).seg.char_count <= p.seg.char_count + 1,
{
}

fn starts_new_segment(seg: &SegmentBuilder, c: char, glyph: &GlyphItem) -> (b: bool)
    ensures
        b == separates(seg@, c, glyph@),
{
    let y_tolerance: Scalar = Scalar::ratio(2, 1);
    let vp_loose: RectF = glyph.loose;
    let vp_strict: RectF = glyph.strict;
    let y_overlap: bool = vp_loose.top.lt(seg.vp_bottom.plus(y_tolerance)) && seg.vp_top.minus(
        y_tolerance,
    ).lt(vp_loose.bottom);

    let gap: Scalar = vp_strict.left.minus(seg.last_char_right);
    let strict_below: bool = seg.last_char_bottom.lt(vp_strict.top);
    let large_leftward_jump: bool = gap.lt(Scalar::ratio(5, 1).neg());
    let seg_width: Scalar = seg.vp_right.minus(seg.vp_left);
    let very_large_leftward_jump: bool = Scalar::ratio(20, 1).lt(seg_width) && gap.lt(
        seg_width.times(Scalar::ratio(1, 2)).neg(),
    );
    let line_changed: bool = seg.last_char_bottom.plus(y_tolerance).lt(vp_strict.top) || (
    strict_below && large_leftward_jump) || very_large_leftward_jump;

    let dot_leader_break: bool = if seg.pending_space {
        (c == '.' && seg.has_non_dot_content()) || (c != '.' && !seg.has_non_dot_content()
            && seg.char_count >= 3)
    } else {
        c == '.' && seg.has_non_dot_content() && seg.avg_char_width().times(
            Scalar::ratio(14, 10),
        ).lt(gap)
    };

    // Gaps of this width always split: they are column breaks.
    let max_inline_gap: Scalar = Scalar::ratio(15, 1);
    !y_overlap || line_changed || max_inline_gap.le(gap) || dot_leader_break || (seg.pending_space
        && seg.avg_char_width().times(Scalar::ratio(22, 10)).lt(gap))
}

/// Adds a glyph that shows a character to the segment, or begins the next one with it.
fn place_glyph(seg: &mut SegmentBuilder, items: &mut Vec<TextItem>, glyph: &GlyphItem)
    requires
        old(seg)@.wf(),
        old(seg).char_count < usize::MAX,
    ensures
        ({
            let before = Progress { seg: old(seg)@, items: item_views(old(items)@) };
            let after = before.placed(glyph@);
            final(seg)@ == after.seg && item_views(final(items)@) == after.items
        }),
{
    let (c, ligature_tail) = expand_ligature(glyph.text);
    if !seg.has_content || starts_new_segment(seg, c, glyph) {
        seg.flush(items);
        seg.start(c, &glyph.loose, &glyph.strict, glyph);
    } else {
        if seg.pending_space {
            seg.commit_pending_space();
        } else {
            let gap: Scalar = glyph.strict.left.minus(seg.last_char_right);
            if seg.should_insert_inferred_space(c, gap) {
                seg.insert_inferred_space();
            }
        }
        seg.push_char(c, &glyph.loose, &glyph.strict, glyph);
    }
    seg.append_ligature_tail(ligature_tail);
}

/// Groups the glyphs of a page by where they stand into text items.
pub fn group_glyphs(glyphs: &[GlyphItem]) -> (items: Vec<TextItem>)
    ensures
        item_views(items@) == grouped(glyph_views(glyphs@)),
{
    let ghost views = glyph_views(glyphs@);
    let skip_invisible: bool = should_skip_invisible(glyphs);
    let mut items: Vec<TextItem> = Vec::new();
    let mut seg: SegmentBuilder = SegmentBuilder::new();
    let mut i: usize = 0;
    assert(item_views(items@) =~= Seq::empty());
    while i < glyphs.len()
        invariant
            i <= glyphs@.len(),
            views == glyph_views(glyphs@),
            seg@ == progress(views, skip_invisible, i as int).seg,
            item_views(items@) == progress(views, skip_invisible, i as int).items,
            seg@.wf(),
            seg.char_count <= i,
        decreases glyphs@.len() - i,
    {
        let glyph: &GlyphItem = &glyphs[i];
        proof {
            assert(views[i as int] == glyph@);
            lemma_step_wf(
                progress(views, skip_invisible, i as int),
                views[i as int],
                skip_invisible,
            );
        }
        i = i + 1;
        if skip_invisible && glyph.invisible {
            continue;
        }
        let c: char = glyph.text;
        if c == '\n' || c == '\r' {
            seg.flush(&mut items);
        } else if c == ' ' {
            seg.mark_pending_space();
        } else if !is_control(c) && !glyph.loose.height().lt(Scalar::ratio(1, 2)) {
            place_glyph(&mut seg, &mut items, glyph);
        }
    }
    seg.flush(&mut items);
    items
}

/// Groups the glyphs of a page by where they stand into text items, without duplicates.
pub fn extract_page_text_items(glyphs: Vec<GlyphItem>) -> (items: Vec<TextItem>)
    ensures
        item_views(items@) == page_items(glyph_views(glyphs@)),
{
    let mut items: Vec<TextItem> = group_glyphs(glyphs.as_slice());
    dedup_overlapping_items(&mut items);
    items
}

/// Whether an item has text, and it is tidy.
pub open spec fn presentable(item: TextItemView) -> bool {
    item.text.len() > 0 && tidy(item.text)
}

proof fn lemma_flushed_presentable(p: Progress)
    requires
        forall|i: int| 0 <= i < p.items.len() ==> presentable(#[trigger] p.items[i]),
    ensures
        forall|i: int|
            0 <= i < p.flushed().items.len() ==> presentable(#[trigger] p.flushed().items[i]),
{
    lemma_final_text(p.seg);
}

proof fn lemma_progress_presentable(glyphs: Seq<GlyphView>, skip_invisible: bool, n: int)
    ensures
        ({
            let items = progress(glyphs, skip_invisible, n).items;
            forall|i: int| 0 <= i < items.len() ==> presentable(#[trigger] items[i])
        }),
    decreases n,
{
    if n > 0 {
        lemma_progress_presentable(glyphs, skip_invisible, n - 1);
        lemma_flushed_presentable(progress(glyphs, skip_invisible, n - 1));
    }
}

/// Every item of a page has text, without white space at its ends and without a space in front
/// of closing punctuation.
pub proof fn lemma_page_items_presentable(glyphs: Seq<GlyphView>)
    ensures
        forall|i: int|
            0 <= i < page_items(glyphs).len() ==> presentable(#[trigger] page_items(glyphs)[i]),
{
    let n = glyphs.len() as int;
    let skip = skips_invisible(glyphs);
    lemma_progress_presentable(glyphs, skip, n);
    lemma_flushed_presentable(progress(glyphs, skip, n));
    lemma_deduplicated_survivors(grouped(glyphs));
    let kept = survivors(grouped(glyphs), 0);
    assert forall|i: int| 0 <= i < page_items(glyphs).len() implies presentable(
        #[trigger] page_items(glyphs)[i],
    ) by {
        assert(kept.contains(kept[i]));
        assert(page_items(glyphs)[i] == grouped(glyphs)[kept[i]]);
    }
}

/// No item of a page repeats an earlier one.
pub proof fn lemma_page_items_distinct(glyphs: Seq<GlyphView>)
    ensures
        forall|i: int, j: int|
            0 <= i < j < page_items(glyphs).len() ==> !duplicates(
                #[trigger] page_items(glyphs)[i],
                #[trigger] page_items(glyphs)[j],
            ),
{
    lemma_deduplicated_distinct(grouped(glyphs));
}

/// The glyphs that are not invisible.
pub open spec fn visible_only(glyphs: Seq<GlyphView>) -> Seq<GlyphView> {
    glyphs.filter(|g: GlyphView| !g.invisible)
}

proof fn lemma_progress_of_first(a: Seq<GlyphView>, b: Seq<GlyphView>, skip: bool, n: int)
    requires
        n <= a.len(),
        n <= b.len(),
        forall|i: int| 0 <= i < n ==> a[i] == b[i],
    ensures
        progress(a, skip, n) == progress(b, skip, n),
    decreases n,
{
    if n > 0 {
        lemma_progress_of_first(a, b, skip, n - 1);
    }
}

/// Skipping invisible glyphs is the same as grouping a page without them.
pub proof fn lemma_skipping_is_removing(glyphs: Seq<GlyphView>)
    ensures
        progress(glyphs, true, glyphs.len() as int) == progress(
            visible_only(glyphs),
            false,
            visible_only(glyphs).len() as int,
        ),
    decreases glyphs.len(),
{
    reveal(Seq::filter);
    if glyphs.len() > 0 {
        let rest = glyphs.drop_last();
        lemma_skipping_is_removing(rest);
        let n = rest.len() as int;
        lemma_progress_of_first(glyphs, rest, true, n);
        let (v, w) = (visible_only(rest), visible_only(glyphs));
        if !glyphs.last().invisible {
            assert(w == v.push(glyphs.last()));
            lemma_progress_of_first(w, v, false, v.len() as int);
        }
    }
}

/// Whether a glyph puts its character on the page.
pub open spec fn shown(glyph: GlyphView, skip_invisible: bool) -> bool {
    &&& !(skip_invisible && glyph.invisible)
    &&& !control(glyph.text)
    &&& !glyph.loose.spec_height().less(fraction(1, 2))
}

/// The characters, other than white ones, that the first `n` glyphs put on the page.
pub open spec fn shown_letters(glyphs: Seq<GlyphView>, skip_invisible: bool, n: int) -> Seq<char>
    decreases n,
{
    if n <= 0 {
        Seq::empty()
    } else {
        let before = shown_letters(glyphs, skip_invisible, n - 1);
        let glyph = glyphs[n - 1];
        if shown(glyph, skip_invisible) && !white(glyph.text) {
            before.push(glyph.text)
        } else {
            before
        }
    }
}

/// The characters, other than white ones, of a list of items.
pub open spec fn item_letters(items: Seq<TextItemView>) -> Seq<char>
    decreases items.len(),
{
    if items.len() == 0 {
        Seq::empty()
    } else {
        item_letters(items.drop_last()) + letters(items.last().text)
    }
}

proof fn lemma_flushed_letters(p: Progress)
    requires
        p.seg.wf(),
    ensures
        item_letters(p.flushed().items) == item_letters(p.items) + letters(p.seg.text),
{
    let text = p.seg.text;
    reveal(Seq::filter);
    if p.seg.has_content {
        lemma_trimmed_letters(text);
        lemma_normalized_letters(trimmed(text));
        lemma_trimmed_letters(normalized(trimmed(text)));
        assert(letters(p.seg.final_text()) == letters(text));
        if p.seg.final_text().len() > 0 {
            assert(p.flushed().items.drop_last() =~= p.items);
        } else {
            assert(letters(text) =~= Seq::empty());
            assert(item_letters(p.items) + letters(text) =~= item_letters(p.items));
        }
    } else {
        assert(letters(text) =~= Seq::empty());
        assert(item_letters(p.items) + letters(text) =~= item_letters(p.items));
    }
}

proof fn lemma_progress_letters(glyphs: Seq<GlyphView>, skip_invisible: bool, n: int)
    requires
        n >= 0,
    ensures
        ({
            let p = progress(glyphs, skip_invisible, n);
            &&& p.seg.wf()
            &&& item_letters(p.items) + letters(p.seg.text) == shown_letters(
                glyphs,
                skip_invisible,
                n,
            )
        }),
    decreases n,
{
    if n == 0 {
        reveal(Seq::filter);
        assert(item_letters(Progress::start().items) + letters(Progress::start().seg.text)
            =~= Seq::empty());
    } else {
        lemma_progress_letters(glyphs, skip_invisible, n - 1);
        let p = progress(glyphs, skip_invisible, n - 1);
        let glyph = glyphs[n - 1];
        let q = p.step(glyph, skip_invisible);
        let c = glyph.text;
        lemma_step_wf(p, glyph, skip_invisible);
        lemma_flushed_letters(p);
        let empty = Seq::<char>::empty();
        assert(letters(empty) =~= empty) by {
            reveal(Seq::filter);
        }
        let before = shown_letters(glyphs, skip_invisible, n - 1);
        assert(before + empty =~= before);
        if !(skip_invisible && glyph.invisible) && c != ' ' && shown(glyph, skip_invisible) {
            assert(ligature(c) == (c, empty));
            if p.seg.has_content && !separates(p.seg, c, glyph) {
                let text = p.seg.text;
                lemma_letters_push(text, ' ');
                lemma_letters_push(text, c);
                lemma_letters_push(text.push(' '), c);
                let grown = continued(p.seg, c, glyph);
                assert(grown.with_tail(empty).text =~= grown.text);
                assert(letters(q.seg.text) == letters(text.push(c)));
            } else {
                lemma_letters_push(empty, c);
                assert(empty.push(c) =~= seq![c]);
                assert(q.seg.text =~= seq![c]);
            }
            if white(c) {
                assert(item_letters(q.items) + letters(q.seg.text) =~= before);
            } else {
                assert(item_letters(q.items) + letters(q.seg.text) =~= before.push(c));
            }
        } else {
            assert(white(' ') && white('\n') && white('\r'));
            assert(item_letters(q.items) + letters(q.seg.text) =~= before);
        }
    }
}

/// Grouping loses and reorders nothing: read one after the other, and white space aside, the
/// items hold the characters that the glyphs put on the page, in the order of drawing.
pub proof fn lemma_grouping_keeps_text(glyphs: Seq<GlyphView>)
    ensures
        item_letters(grouped(glyphs)) == shown_letters(
            glyphs,
            skips_invisible(glyphs),
            glyphs.len() as int,
        ),
{
    let n = glyphs.len() as int;
    let skip = skips_invisible(glyphs);
    lemma_progress_letters(glyphs, skip, n);
    lemma_flushed_letters(progress(glyphs, skip, n));
}

/// Whether a glyph is a character of some item: it is not skipped as invisible, shows something
/// other than a space or a control character, and is at least one half high.
pub open spec fn drawn(glyph: GlyphView, skip_invisible: bool) -> bool {
    &&& !(skip_invisible && glyph.invisible)
    &&& '\u{20}' < glyph.text < '\u{7f}' || '\u{9f}' < glyph.text
    &&& !glyph.loose.bottom.difference(glyph.loose.top).less(fraction(1, 2))
}

/// A glyph whose box is, exactly, at least one half high is not too low to be drawn.
pub proof fn lemma_high_enough(glyph: GlyphView, skip_invisible: bool)
    requires
        !(skip_invisible && glyph.invisible),
        '\u{20}' < glyph.text < '\u{7f}' || '\u{9f}' < glyph.text,
        glyph.loose.top.finite() && glyph.loose.bottom.finite(),
        2 * (glyph.loose.bottom.value() - glyph.loose.top.value()) >= one(),
    ensures
        drawn(glyph, skip_invisible),
{
    lemma_round_numbers();
    lemma_difference_at_least(glyph.loose.bottom, glyph.loose.top, fraction(1, 2));
}

/// What a glyph that is not drawn does: a line break ends the item under way, a space behind
/// content is remembered, and nothing else leaves a trace.
pub proof fn lemma_not_drawn(p: Progress, glyph: GlyphView, skip_invisible: bool)
    requires
        !drawn(glyph, skip_invisible),
    ensures
        ({
            let after = p.step(glyph, skip_invisible);
            let c = glyph.text;
            if skip_invisible && glyph.invisible {
                after == p
            } else if c == '\n' || c == '\r' {
                after.seg.text.len() == 0 && !after.seg.has_content && !after.seg.pending_space
                    && after.items == p.seg.flushed(p.items)
            } else if c == ' ' {
                &&& after.items == p.items
                &&& after.seg == (Segment { pending_space: after.seg.pending_space, ..p.seg })
                &&& after.seg.pending_space == (p.seg.pending_space || p.seg.has_content)
            } else {
                after == p
            }
        }),
{
}

/// Whether a segment has `glyph` as its last one, with no space behind it.
pub open spec fn remembers(seg: Segment, glyph: GlyphView) -> bool {
    &&& seg.has_content && !seg.pending_space
    &&& seg.last_char == Some(glyph.text)
    &&& seg.last_char_right == glyph.strict.right
    &&& seg.last_char_bottom == glyph.strict.bottom
}

/// Whether the item under way in `p` ended and `glyph` began the next one.
pub open spec fn begins_item(p: Progress, after: Progress, glyph: GlyphView) -> bool {
    &&& after.items == p.seg.flushed(p.items)
    &&& after.seg.text == seq![glyph.text]
    &&& after.seg.char_count == 1
    &&& after.seg.vp_left == glyph.loose.left && after.seg.vp_right == glyph.loose.right
    &&& after.seg.vp_top == glyph.loose.top && after.seg.vp_bottom == glyph.loose.bottom
    &&& remembers(after.seg, glyph)
}

/// Whether the glyph joined the item under way in `p`, with or without a space in front of it.
pub open spec fn joins_item(p: Progress, after: Progress, glyph: GlyphView, space: bool) -> bool {
    &&& after.items == p.items
    &&& after.seg.text == (if space {
        p.seg.text.push(' ').push(glyph.text)
    } else {
        p.seg.text.push(glyph.text)
    })
    &&& after.seg.char_count == p.seg.char_count + 1
    &&& remembers(after.seg, glyph)
}

pub(crate) proof fn lemma_spelled_alone(c: char)
    requires
        '\u{20}' < c < '\u{7f}' || '\u{9f}' < c,
    ensures
        ligature(c) == (c, Seq::<char>::empty()),
        !control(c),
{
    assert(seq![] =~= Seq::<char>::empty());
}

proof fn lemma_separated_begins(p: Progress, glyph: GlyphView, skip_invisible: bool)
    requires
        p.seg.has_content ==> separates(p.seg, glyph.text, glyph),
        drawn(glyph, skip_invisible),
    ensures
        begins_item(p, p.step(glyph, skip_invisible), glyph),
{
    lemma_spelled_alone(glyph.text);
    let empty = Seq::<char>::empty();
    assert(seq![glyph.text] + empty =~= seq![glyph.text]);
}

/// The first glyph begins an item.
pub proof fn lemma_first_glyph_begins(p: Progress, glyph: GlyphView, skip_invisible: bool)
    requires
        !p.seg.has_content,
        drawn(glyph, skip_invisible),
    ensures
        begins_item(p, p.step(glyph, skip_invisible), glyph),
{
    lemma_separated_begins(p, glyph, skip_invisible);
}

/// A glyph whose box lies, exactly, two or more above or below the box of the item under way
/// begins another item.
pub proof fn lemma_other_line_begins(p: Progress, glyph: GlyphView, skip_invisible: bool)
    requires
        drawn(glyph, skip_invisible),
        glyph.loose.top.finite() && glyph.loose.bottom.finite(),
        p.seg.vp_top.finite() && p.seg.vp_bottom.finite(),
        glyph.loose.bottom.value() <= p.seg.vp_top.value() - 2 * one() || glyph.loose.top.value()
            >= p.seg.vp_bottom.value() + 2 * one(),
    ensures
        begins_item(p, p.step(glyph, skip_invisible), glyph),
{
    lemma_round_numbers();
    if glyph.loose.bottom.value() <= p.seg.vp_top.value() - 2 * one() {
        lemma_difference_at_least(p.seg.vp_top, fraction(2, 1), glyph.loose.bottom);
    } else {
        lemma_sum_at_most(p.seg.vp_bottom, fraction(2, 1), glyph.loose.top);
    }
    lemma_separated_begins(p, glyph, skip_invisible);
}

/// A glyph that stands, exactly, fifteen or more to the right of the last one begins another item:
/// the gap between two columns.
pub proof fn lemma_other_column_begins(p: Progress, glyph: GlyphView, skip_invisible: bool)
    requires
        drawn(glyph, skip_invisible),
        glyph.strict.left.finite() && p.seg.last_char_right.finite(),
        glyph.strict.left.value() - p.seg.last_char_right.value() >= 15 * one(),
    ensures
        begins_item(p, p.step(glyph, skip_invisible), glyph),
{
    lemma_round_numbers();
    lemma_difference_at_least(glyph.strict.left, p.seg.last_char_right, fraction(15, 1));
    lemma_separated_begins(p, glyph, skip_invisible);
}

/// A glyph that goes back begins another item: below the last one, where the top of its tight box
/// is more than two under the bottom of the last one's, or under it at all and the glyph more than
/// five to the left; or on the same line, where it goes back by more than half of an item wider
/// than twenty.
pub proof fn lemma_way_back_begins(p: Progress, glyph: GlyphView, skip_invisible: bool)
    requires
        drawn(glyph, skip_invisible),
        ({
            let gap = glyph.strict.left.difference(p.seg.last_char_right);
            let width = p.seg.vp_right.difference(p.seg.vp_left);
            &&& gap.finite() && width.finite()
            &&& glyph.strict.top.finite() && p.seg.last_char_bottom.finite()
            &&& {
                ||| p.seg.last_char_bottom.sum(fraction(2, 1)).less(glyph.strict.top)
                ||| glyph.strict.top.value() > p.seg.last_char_bottom.value() && gap.value() < -5
                    * one()
                ||| width.value() > 20 * one() && 2 * gap.value() < -width.value()
            }
        }),
    ensures
        begins_item(p, p.step(glyph, skip_invisible), glyph),
{
    let gap = glyph.strict.left.difference(p.seg.last_char_right);
    let width = p.seg.vp_right.difference(p.seg.vp_left);
    lemma_round_numbers();
    lemma_order_by_value(p.seg.last_char_bottom, glyph.strict.top);
    lemma_negated(fraction(5, 1));
    lemma_order_by_value(gap, fraction(5, 1).negated());
    lemma_order_by_value(fraction(20, 1), width);
    if width.value() > 20 * one() {
        lemma_half(width);
        let half = width.product(fraction(1, 2));
        lemma_negated(half);
        lemma_order_by_value(gap, half.negated());
    }
    lemma_separated_begins(p, glyph, skip_invisible);
}

/// A dot leader is an item of its own. With a drawn space waiting, a dot behind other text begins
/// one, and other text ends one of three or more dots, asterisks and hyphens. Without one, a dot
/// begins one where the gap is over 1.4 of the mean advance.
pub proof fn lemma_leader_begins(p: Progress, glyph: GlyphView, skip_invisible: bool)
    requires
        drawn(glyph, skip_invisible),
        ({
            let gap = glyph.strict.left.difference(p.seg.last_char_right);
            let other = exists|i: int|
                0 <= i < p.seg.text.len() && !". *-"@.contains(#[trigger] p.seg.text[i]);
            ||| p.seg.pending_space && glyph.text == '.' && other
            ||| p.seg.pending_space && glyph.text != '.' && !other && p.seg.char_count >= 3
            ||| !p.seg.pending_space && glyph.text == '.' && other
                && p.seg.average_width().product(fraction(14, 10)).less(gap)
        }),
    ensures
        begins_item(p, p.step(glyph, skip_invisible), glyph),
{
    lemma_beyond_dots(p.seg.text);
    lemma_separated_begins(p, glyph, skip_invisible);
}

proof fn lemma_beyond_dots(text: Seq<char>)
    ensures
        beyond_dots(text) == exists|i: int|
            0 <= i < text.len() && !". *-"@.contains(#[trigger] text[i]),
{
    reveal_strlit(". *-");
    let dots = ". *-"@;
    assert(dots.len() == 4);
    assert(dots[0] == '.' && dots[1] == ' ' && dots[2] == '*' && dots[3] == '-');
}

/// Behind a drawn space, a glyph with a gap of over 2.2 times the mean advance begins another item.
pub proof fn lemma_wide_space_begins(p: Progress, glyph: GlyphView, skip_invisible: bool)
    requires
        drawn(glyph, skip_invisible),
        p.seg.pending_space,
        p.seg.average_width().product(fraction(22, 10)).less(
            glyph.strict.left.difference(p.seg.last_char_right),
        ),
    ensures
        begins_item(p, p.step(glyph, skip_invisible), glyph),
{
    lemma_separated_begins(p, glyph, skip_invisible);
}

/// Nothing else begins an item: a glyph joins the one under way where its box comes, before the
/// tolerance of two is rounded away, within two of the item's, it stands less than fifteen to the
/// right of the last glyph, does not go back, and neither a dot leader nor a wide space
/// intervenes. A drawn space comes with it, and so does one that the gap stands for.
pub proof fn lemma_glyph_joins(p: Progress, glyph: GlyphView, skip_invisible: bool)
    requires
        drawn(glyph, skip_invisible),
        p.seg.has_content,
        p.seg.text.len() > 0 && p.seg.text.last() != ' ',
        ({
            let gap = glyph.strict.left.difference(p.seg.last_char_right);
            let width = p.seg.vp_right.difference(p.seg.vp_left);
            let mean = p.seg.average_width();
            let dot = glyph.text == '.';
            let other = exists|i: int|
                0 <= i < p.seg.text.len() && !". *-"@.contains(#[trigger] p.seg.text[i]);
            &&& gap.finite() && width.finite()
            &&& glyph.loose.top.less(p.seg.vp_bottom.sum(fraction(2, 1)))
            &&& p.seg.vp_top.difference(fraction(2, 1)).less(glyph.loose.bottom)
            &&& gap.value() < 15 * one()
            &&& !p.seg.last_char_bottom.sum(fraction(2, 1)).less(glyph.strict.top)
            &&& !p.seg.last_char_bottom.less(glyph.strict.top) || gap.value() >= -5 * one()
            &&& width.value() <= 20 * one() || 2 * gap.value() >= -width.value()
            &&& p.seg.pending_space ==> {
                &&& dot ==> !other
                &&& !dot ==> other || p.seg.char_count < 3
                &&& !mean.product(fraction(22, 10)).less(gap)
            }
            &&& !p.seg.pending_space ==> !dot || !other || !mean.product(fraction(14, 10)).less(gap)
        }),
    ensures
        joins_item(
            p,
            p.step(glyph, skip_invisible),
            glyph,
            p.seg.pending_space || p.seg.infers_space(
                glyph.text,
                glyph.strict.left.difference(p.seg.last_char_right),
            ),
        ),
{
    let gap = glyph.strict.left.difference(p.seg.last_char_right);
    let width = p.seg.vp_right.difference(p.seg.vp_left);
    lemma_round_numbers();
    lemma_beyond_dots(p.seg.text);
    lemma_negated(fraction(5, 1));
    lemma_order_by_value(gap, fraction(5, 1).negated());
    lemma_order_by_value(fraction(20, 1), width);
    lemma_order_by_value(fraction(15, 1), gap);
    if width.value() > 20 * one() {
        lemma_half(width);
        let half = width.product(fraction(1, 2));
        lemma_negated(half);
        lemma_order_by_value(gap, half.negated());
    }
    lemma_spelled_alone(glyph.text);
    assert(!separates(p.seg, glyph.text, glyph));
    let grown = continued(p.seg, glyph.text, glyph);
    assert(grown.text + Seq::<char>::empty() =~= grown.text);
}

/// The items of a page are those of its runs that no later one repeats, in order.
pub proof fn lemma_page_items_complete(glyphs: Seq<GlyphView>) -> (kept: Seq<int>)
    ensures
        page_items(glyphs).len() == kept.len(),
        forall|k: int|
            0 <= k < kept.len() ==> 0 <= #[trigger] kept[k] < grouped(glyphs).len() && page_items(
                glyphs,
            )[k] == grouped(glyphs)[kept[k]],
        forall|j: int, k: int| 0 <= j < k < kept.len() ==> kept[j] < kept[k],
        forall|i: int|
            0 <= i < grouped(glyphs).len() ==> (#[trigger] kept.contains(i) <==> forall|j: int|
                i < j < grouped(glyphs).len() ==> !duplicates(
                    grouped(glyphs)[i],
                    #[trigger] grouped(glyphs)[j],
                )),
{
    let items = grouped(glyphs);
    lemma_deduplicated_survivors(items);
    let kept = survivors(items, 0);
    assert forall|k: int| 0 <= k < kept.len() implies 0 <= #[trigger] kept[k] < items.len()
        && page_items(glyphs)[k] == items[kept[k]] by {
        assert(kept.contains(kept[k]));
    }
    assert forall|i: int| 0 <= i < items.len() implies (#[trigger] kept.contains(i) <==> forall|
        j: int,
    |
        i < j < items.len() ==> !duplicates(items[i], #[trigger] items[j])) by {
        if repeated_later(items, i, i + 1) {
            let j = choose|j: int|
                i + 1 <= j < items.len() && duplicates(items[i], #[trigger] items[j]);
            assert(duplicates(items[i], items[j]));
        }
    }
    kept
}

/// Only seven codes stand for anything but their own character.
pub proof fn lemma_other_codes_stand_alone(c: char)
    requires
        c as int != 2 && !(0x1a <= c as int <= 0x1f),
    ensures
        ligature(c) == (c, Seq::<char>::empty()),
{
    assert(seq![] =~= Seq::<char>::empty());
}

} // verus!
