//! What the text items of a page are, as a whole: runs of the glyphs that it draws.
use crate::scalar::Scalar;
use vstd::prelude::*;

verus! {

use crate::chars::white;
use crate::exact::{
    lemma_absolute_positive, lemma_difference_at_least, lemma_difference_at_most,
    lemma_difference_nearest, lemma_round_numbers, lemma_sum_at_most, measures, one,
};
use crate::extract::{
    continued, drawn, grouped, lemma_not_drawn, lemma_spelled_alone, progress, separates, Progress,
};
use crate::glyph::{skips_invisible, GlyphView};
use crate::normalize::{lemma_normalized_letters, normalized};
use crate::scalar::{fraction, lemma_order_by_value, signed};
use crate::segment::Segment;
use crate::text::{
    lemma_letters_push, lemma_trimmed, lemma_trimmed_letters, letters, trimmed,
};
use crate::types::TextItemView;

/// Whether `v` is one of the values and none is smaller.
pub open spec fn least(values: Seq<Scalar>, v: Scalar) -> bool {
    values.contains(v) && forall|k: int| 0 <= k < values.len() ==> v.at_most(#[trigger] values[k])
}

/// Whether `v` is one of the values and none is larger.
pub open spec fn greatest(values: Seq<Scalar>, v: Scalar) -> bool {
    values.contains(v) && forall|k: int| 0 <= k < values.len() ==> (#[trigger] values[k]).at_most(v)
}

pub open spec fn lefts(run: Seq<GlyphView>) -> Seq<Scalar> {
    run.map_values(|g: GlyphView| g.loose.left)
}

pub open spec fn rights(run: Seq<GlyphView>) -> Seq<Scalar> {
    run.map_values(|g: GlyphView| g.loose.right)
}

pub open spec fn tops(run: Seq<GlyphView>) -> Seq<Scalar> {
    run.map_values(|g: GlyphView| g.loose.top)
}

pub open spec fn bottoms(run: Seq<GlyphView>) -> Seq<Scalar> {
    run.map_values(|g: GlyphView| g.loose.bottom)
}

pub open spec fn characters(run: Seq<GlyphView>) -> Seq<char> {
    run.map_values(|g: GlyphView| g.text)
}

/// The advances of a run, added up from the first on. A glyph that states none has the width of its
/// tight box, or none where that is negative.
pub open spec fn total_advance(run: Seq<GlyphView>) -> Scalar
    decreases run.len(),
{
    if run.len() == 0 {
        signed(false, 0)
    } else {
        let g = run.last();
        let advance = match g.text_width {
            Some(width) => width,
            None => {
                let width = g.strict.right.difference(g.strict.left);
                if width.less(signed(false, 0)) {
                    signed(false, 0)
                } else {
                    width
                }
            },
        };
        if run.len() == 1 {
            advance
        } else {
            total_advance(run.drop_last()).sum(advance)
        }
    }
}

/// Whether a run of glyphs shows nothing but white space.
pub open spec fn blank(run: Seq<GlyphView>) -> bool {
    forall|k: int| 0 <= k < run.len() ==> white((#[trigger] run[k]).text)
}

/// Whether an item is what a run of glyphs shows: its text holds their characters, white ones
/// aside, and its box is the union of their boxes. The font size, or the height where none is
/// stated, the rotation and the colors are those of the first glyph.
pub open spec fn shows(item: TextItemView, run: Seq<GlyphView>) -> bool {
    &&& run.len() > 0
    &&& letters(item.text) == letters(characters(run))
    &&& least(lefts(run), item.x)
    &&& least(tops(run), item.y)
    &&& exists|right: Scalar| #[trigger]
        greatest(rights(run), right) && measures(item.width, item.x, right)
    &&& exists|bottom: Scalar| #[trigger]
        greatest(bottoms(run), bottom) && measures(item.height, item.y, bottom)
    &&& item.rotation == run[0].rotation_deg
    &&& item.font_size matches Some(size) && (match run[0].font_size {
        Some(stated) => size == stated,
        None => measures(size, run[0].loose.top, run[0].loose.bottom),
    })
    &&& item.font_height matches Some(height) && measures(
        height,
        run[0].loose.top,
        run[0].loose.bottom,
    )
    &&& item.text_width == (if signed(false, 0).less(total_advance(run)) {
        Some(total_advance(run))
    } else {
        None
    })
    &&& item.font_is_buggy == exists|k: int|
        0 <= k < run.len() && 0xE000 < (#[trigger] run[k]).text as int <= 0xF8FF
    &&& item.fill_color == run[0].fill_color
    &&& item.stroke_color == run[0].stroke_color
    &&& item.font_name is None && item.font_ascent is None && item.font_descent is None
    &&& item.font_weight is None && item.font_flags is None
    &&& item.mcid is None && item.confidence is None
}

/// Whether the items are those of the runs, one for each that is not blank, in order.
pub open spec fn items_of(items: Seq<TextItemView>, runs: Seq<Seq<GlyphView>>) -> bool
    decreases runs.len(),
{
    if runs.len() == 0 {
        items.len() == 0
    } else if blank(runs.last()) {
        items_of(items, runs.drop_last())
    } else {
        items.len() > 0 && shows(items.last(), runs.last()) && items_of(
            items.drop_last(),
            runs.drop_last(),
        )
    }
}

/// The glyphs of all runs, one run after the other.
pub open spec fn joined(runs: Seq<Seq<GlyphView>>) -> Seq<GlyphView>
    decreases runs.len(),
{
    if runs.len() == 0 {
        Seq::empty()
    } else {
        joined(runs.drop_last()) + runs.last()
    }
}

/// Whether a glyph stands next to those before it in a run: up and down, less than two from one of
/// them, and to the right, less than fifteen from the last.
pub open spec fn adjoins(run: Seq<GlyphView>, g: GlyphView) -> bool {
    &&& exists|k: int|
        0 <= k < run.len() && g.loose.top.value() < (#[trigger] run[k]).loose.bottom.value() + 2
            * one()
    &&& exists|k: int|
        0 <= k < run.len() && (#[trigger] run[k]).loose.top.value() - 2 * one()
            < g.loose.bottom.value()
    &&& g.strict.left.value() - run.last().strict.right.value() < 15 * one()
}

/// Whether every glyph of a run stands next to those before it.
pub open spec fn coherent(run: Seq<GlyphView>) -> bool {
    run.len() > 0 && forall|m: int| 1 <= m < run.len() ==> #[trigger] adjoins(run.take(m), run[m])
}

/// Whether the sides of the boxes of a glyph are numbers.
pub open spec fn boxed(g: GlyphView) -> bool {
    &&& g.loose.left.finite() && g.loose.right.finite()
    &&& g.loose.top.finite() && g.loose.bottom.finite()
    &&& g.strict.left.finite() && g.strict.right.finite()
}

proof fn lemma_least_pushed(values: Seq<Scalar>, v: Scalar, x: Scalar)
    requires
        least(values, v),
        !x.nan(),
    ensures
        least(values.push(x), v.smaller(x)),
{
    let all = values.push(x);
    let k = choose|k: int| 0 <= k < values.len() && values[k] == v;
    assert(v.at_most(values[k]));
    assert(all[k] == v);
    assert(all[values.len() as int] == x);
    assert forall|i: int| 0 <= i < all.len() implies v.smaller(x).at_most(#[trigger] all[i]) by {
        if i < values.len() {
            assert(v.at_most(values[i]));
        }
    }
}

proof fn lemma_greatest_pushed(values: Seq<Scalar>, v: Scalar, x: Scalar)
    requires
        greatest(values, v),
        !x.nan(),
    ensures
        greatest(values.push(x), v.larger(x)),
{
    let all = values.push(x);
    let k = choose|k: int| 0 <= k < values.len() && values[k] == v;
    assert(values[k].at_most(v));
    assert(all[k] == v);
    assert(all[values.len() as int] == x);
    assert forall|i: int| 0 <= i < all.len() implies (#[trigger] all[i]).at_most(v.larger(x)) by {
        if i < values.len() {
            assert(values[i].at_most(v));
        }
    }
}

/// Whether a segment under way is what a run of glyphs has come to.
spec fn covers(seg: Segment, run: Seq<GlyphView>) -> bool {
    &&& run.len() > 0
    &&& drawn(run[0], false)
    &&& seg.has_content
    &&& seg.text.len() > 0 && seg.text.last() == run.last().text
    &&& letters(seg.text) == letters(characters(run))
    &&& least(lefts(run), seg.vp_left)
    &&& greatest(rights(run), seg.vp_right)
    &&& least(tops(run), seg.vp_top)
    &&& greatest(bottoms(run), seg.vp_bottom)
    &&& seg.char_count == run.len()
    &&& seg.last_char_right == run.last().strict.right
    &&& seg.last_char_bottom == run.last().strict.bottom
    &&& seg.rotation_deg == run[0].rotation_deg
    &&& seg.font_size == (match run[0].font_size {
        Some(size) => Some(size),
        None => Some(run[0].loose.spec_height().absolute()),
    })
    &&& seg.font_height == Some(run[0].loose.spec_height().absolute())
    &&& seg.text_width == total_advance(run)
    &&& seg.font_is_buggy == exists|k: int|
        0 <= k < run.len() && 0xE000 < (#[trigger] run[k]).text as int <= 0xF8FF
    &&& seg.fill_color == run[0].fill_color
    &&& seg.stroke_color == run[0].stroke_color
}

proof fn lemma_covers_first(p: Progress, g: GlyphView, skip_invisible: bool)
    requires
        drawn(g, skip_invisible),
        boxed(g),
        p.seg.has_content ==> separates(p.seg, g.text, g),
    ensures
        covers(p.step(g, skip_invisible).seg, seq![g]),
        p.step(g, skip_invisible).items == p.seg.flushed(p.items),
{
    let after = p.step(g, skip_invisible);
    let run = seq![g];
    lemma_difference_nearest(g.strict.right, g.strict.left);
    assert(run.last() == g);
    assert(total_advance(run) == after.seg.text_width);
    lemma_spelled_alone(g.text);
    assert(seq![g.text] + Seq::<char>::empty() =~= seq![g.text]);
    assert(after.seg.text =~= characters(run));
    assert(lefts(run)[0] == g.loose.left && rights(run)[0] == g.loose.right && tops(run)[0]
        == g.loose.top && bottoms(run)[0] == g.loose.bottom);
    assert(run[0] == g);
    assert(after.seg.font_is_buggy == (0xE000 < run[0].text as int <= 0xF8FF));
}

proof fn lemma_covers_next(p: Progress, run: Seq<GlyphView>, g: GlyphView, skip_invisible: bool)
    requires
        drawn(g, skip_invisible),
        boxed(g),
        covers(p.seg, run),
        !separates(p.seg, g.text, g),
    ensures
        covers(p.step(g, skip_invisible).seg, run.push(g)),
        p.step(g, skip_invisible).items == p.items,
{
    let after = p.step(g, skip_invisible);
    let all = run.push(g);
    let c = g.text;
    lemma_difference_nearest(g.strict.right, g.strict.left);
    lemma_spelled_alone(c);
    let grown = continued(p.seg, c, g);
    assert(grown.text + Seq::<char>::empty() =~= grown.text);
    let text = p.seg.text;
    lemma_letters_push(text, ' ');
    lemma_letters_push(text, c);
    lemma_letters_push(text.push(' '), c);
    lemma_letters_push(characters(run), c);
    assert(characters(all) =~= characters(run).push(c));
    assert(lefts(all) =~= lefts(run).push(g.loose.left));
    assert(rights(all) =~= rights(run).push(g.loose.right));
    assert(tops(all) =~= tops(run).push(g.loose.top));
    assert(bottoms(all) =~= bottoms(run).push(g.loose.bottom));
    lemma_least_pushed(lefts(run), p.seg.vp_left, g.loose.left);
    lemma_least_pushed(tops(run), p.seg.vp_top, g.loose.top);
    lemma_greatest_pushed(rights(run), p.seg.vp_right, g.loose.right);
    lemma_greatest_pushed(bottoms(run), p.seg.vp_bottom, g.loose.bottom);
    assert(all.drop_last() =~= run);
    assert(all.last() == g);
    assert(all[0] == run[0]);
    let old = exists|k: int| 0 <= k < run.len() && 0xE000 < (#[trigger] run[k]).text as int <= 0xF8FF;
    let new = exists|k: int| 0 <= k < all.len() && 0xE000 < (#[trigger] all[k]).text as int <= 0xF8FF;
    assert(new == (old || 0xE000 < c as int <= 0xF8FF)) by {
        if old {
            let k = choose|k: int|
                0 <= k < run.len() && 0xE000 < (#[trigger] run[k]).text as int <= 0xF8FF;
            assert(all[k] == run[k]);
        }
        assert(all[run.len() as int] == g);
        if new {
            let k = choose|k: int|
                0 <= k < all.len() && 0xE000 < (#[trigger] all[k]).text as int <= 0xF8FF;
            if k < run.len() {
                assert(run[k] == all[k]);
            }
        }
    }
}

proof fn lemma_joined_adjoins(seg: Segment, run: Seq<GlyphView>, g: GlyphView)
    requires
        covers(seg, run),
        forall|k: int| 0 <= k < run.len() ==> boxed(#[trigger] run[k]),
        boxed(g),
        !separates(seg, g.text, g),
    ensures
        adjoins(run, g),
{
    lemma_round_numbers();
    let b = choose|k: int| 0 <= k < run.len() && bottoms(run)[k] == seg.vp_bottom;
    let t = choose|k: int| 0 <= k < run.len() && tops(run)[k] == seg.vp_top;
    assert(bottoms(run).contains(seg.vp_bottom) && tops(run).contains(seg.vp_top));
    assert(boxed(run[b]) && boxed(run[t]));
    assert(run[b].loose.bottom == seg.vp_bottom && run[t].loose.top == seg.vp_top);
    if g.loose.top.value() >= seg.vp_bottom.value() + 2 * one() {
        lemma_sum_at_most(seg.vp_bottom, fraction(2, 1), g.loose.top);
    }
    if g.loose.bottom.value() <= seg.vp_top.value() - 2 * one() {
        lemma_difference_at_least(seg.vp_top, fraction(2, 1), g.loose.bottom);
    }
    assert(boxed(run[run.len() - 1]));
    if g.strict.left.value() - seg.last_char_right.value() >= 15 * one() {
        lemma_difference_at_least(g.strict.left, seg.last_char_right, fraction(15, 1));
    }
}

proof fn lemma_letters_blank(run: Seq<GlyphView>)
    ensures
        blank(run) <==> letters(characters(run)).len() == 0,
    decreases run.len(),
{
    let text = characters(run);
    if run.len() == 0 {
        reveal(Seq::filter);
    } else {
        let rest = run.drop_last();
        lemma_letters_blank(rest);
        assert(characters(run) =~= characters(rest).push(run.last().text));
        lemma_letters_push(characters(rest), run.last().text);
        if blank(run) {
            assert forall|k: int| 0 <= k < rest.len() implies white((#[trigger] rest[k]).text) by {
                assert(rest[k] == run[k]);
            }
            assert(white(run[run.len() - 1].text));
        }
        if blank(rest) && white(run.last().text) {
            assert forall|k: int| 0 <= k < run.len() implies white((#[trigger] run[k]).text) by {
                if k < rest.len() {
                    assert(rest[k] == run[k]);
                }
            }
        }
    }
}

proof fn lemma_final_letters(seg: Segment)
    ensures
        letters(seg.final_text()) == letters(seg.text),
        seg.final_text().len() > 0 <==> letters(seg.text).len() > 0,
{
    let text = seg.text;
    lemma_trimmed_letters(text);
    lemma_normalized_letters(trimmed(text));
    lemma_trimmed_letters(normalized(trimmed(text)));
    let t = seg.final_text();
    lemma_trimmed(normalized(trimmed(text)));
    reveal(Seq::filter);
    if t.len() > 0 {
        lemma_letters_push(t.drop_last(), t.last());
        assert(t.drop_last().push(t.last()) =~= t);
    } else {
        assert(t =~= Seq::empty());
    }
}

proof fn lemma_least_value(values: Seq<Scalar>, v: Scalar, k: int)
    requires
        least(values, v),
        0 <= k < values.len(),
        forall|i: int| 0 <= i < values.len() ==> (#[trigger] values[i]).finite(),
    ensures
        v.finite(),
        v.value() <= values[k].value(),
{
    let i = choose|i: int| 0 <= i < values.len() && values[i] == v;
    assert(values[i].finite());
    assert(v.at_most(values[k]) && values[k].finite());
    lemma_order_by_value(v, values[k]);
}

proof fn lemma_greatest_value(values: Seq<Scalar>, v: Scalar, k: int)
    requires
        greatest(values, v),
        0 <= k < values.len(),
        forall|i: int| 0 <= i < values.len() ==> (#[trigger] values[i]).finite(),
    ensures
        v.finite(),
        values[k].value() <= v.value(),
{
    let i = choose|i: int| 0 <= i < values.len() && values[i] == v;
    assert(values[i].finite());
    assert(values[k].at_most(v) && values[k].finite());
    lemma_order_by_value(values[k], v);
}

/// A glyph that is drawn is higher than nothing.
proof fn lemma_drawn_high(g: GlyphView, skip_invisible: bool)
    requires
        boxed(g),
        drawn(g, skip_invisible),
    ensures
        g.loose.top.value() < g.loose.bottom.value(),
{
    let (zero, half) = (signed(false, 0), fraction(1, 2));
    lemma_round_numbers();
    lemma_order_by_value(zero, half);
    if g.loose.bottom.value() <= g.loose.top.value() {
        lemma_difference_at_most(g.loose.bottom, g.loose.top, zero);
    }
}

proof fn lemma_height_measured(g: GlyphView, skip_invisible: bool)
    requires
        boxed(g),
        drawn(g, skip_invisible),
    ensures
        measures(g.loose.spec_height().absolute(), g.loose.top, g.loose.bottom),
{
    lemma_drawn_high(g, skip_invisible);
    lemma_difference_nearest(g.loose.bottom, g.loose.top);
    lemma_absolute_positive(g.loose.bottom.difference(g.loose.top));
}

proof fn lemma_item_shows(seg: Segment, run: Seq<GlyphView>)
    requires
        covers(seg, run),
        forall|k: int| 0 <= k < run.len() ==> boxed(#[trigger] run[k]),
    ensures
        blank(run) ==> seg.item() is None,
        !blank(run) ==> (seg.item() matches Some(item) && shows(item, run)),
{
    lemma_final_letters(seg);
    lemma_letters_blank(run);
    if !blank(run) {
        let item = seg.item()->0;
        assert(boxed(run[0]));
        assert forall|i: int| 0 <= i < run.len() implies (#[trigger] lefts(run)[i]).finite() by {
            assert(boxed(run[i]));
        }
        assert forall|i: int| 0 <= i < run.len() implies (#[trigger] rights(run)[i]).finite() by {
            assert(boxed(run[i]));
        }
        assert forall|i: int| 0 <= i < run.len() implies (#[trigger] tops(run)[i]).finite() by {
            assert(boxed(run[i]));
        }
        assert forall|i: int| 0 <= i < run.len() implies (#[trigger] bottoms(run)[i]).finite() by {
            assert(boxed(run[i]));
        }
        lemma_least_value(lefts(run), seg.vp_left, 0);
        lemma_greatest_value(rights(run), seg.vp_right, 0);
        lemma_least_value(tops(run), seg.vp_top, 0);
        lemma_greatest_value(bottoms(run), seg.vp_bottom, 0);
        lemma_difference_nearest(seg.vp_right, seg.vp_left);
        lemma_difference_nearest(seg.vp_bottom, seg.vp_top);
        lemma_height_measured(run[0], false);
        assert(greatest(rights(run), seg.vp_right) && measures(item.width, item.x, seg.vp_right));
        assert(greatest(bottoms(run), seg.vp_bottom) && measures(
            item.height,
            item.y,
            seg.vp_bottom,
        ));
    }
}

proof fn lemma_items_of_flushed(
    p: Progress,
    done: Seq<Seq<GlyphView>>,
    run: Seq<GlyphView>,
)
    requires
        items_of(p.items, done),
        covers(p.seg, run),
        forall|k: int| 0 <= k < run.len() ==> boxed(#[trigger] run[k]),
    ensures
        items_of(p.seg.flushed(p.items), done.push(run)),
{
    lemma_item_shows(p.seg, run);
    let all = done.push(run);
    assert(all.drop_last() =~= done);
    assert(all.last() == run);
    if !blank(run) {
        let item = p.seg.item()->0;
        assert(p.items.push(item).drop_last() =~= p.items);
    }
}

/// The runs of the first `n` glyphs: those that are complete, and the one under way.
proof fn lemma_runs(glyphs: Seq<GlyphView>, skip_invisible: bool, n: int) -> (r: (
    Seq<Seq<GlyphView>>,
    Seq<GlyphView>,
))
    requires
        0 <= n <= glyphs.len(),
        forall|i: int| 0 <= i < glyphs.len() ==> boxed(#[trigger] glyphs[i]),
    ensures
        ({
            let (done, open) = r;
            let p = progress(glyphs, skip_invisible, n);
            &&& joined(done) + open == glyphs.take(n).filter(
                |g: GlyphView| drawn(g, skip_invisible),
            )
            &&& items_of(p.items, done)
            &&& forall|k: int| 0 <= k < done.len() ==> coherent(#[trigger] done[k])
            &&& if open.len() == 0 {
                p.seg == Segment::empty()
            } else {
                covers(p.seg, open) && coherent(open)
            }
            &&& forall|k: int| 0 <= k < open.len() ==> boxed(#[trigger] open[k])
        }),
    decreases n,
{
    let keep = |g: GlyphView| drawn(g, skip_invisible);
    reveal(Seq::filter);
    if n == 0 {
        let r = (Seq::<Seq<GlyphView>>::empty(), Seq::<GlyphView>::empty());
        assert(joined(r.0) + r.1 =~= glyphs.take(0).filter(keep));
        r
    } else {
        let (done, open) = lemma_runs(glyphs, skip_invisible, n - 1);
        let p = progress(glyphs, skip_invisible, n - 1);
        let g = glyphs[n - 1];
        assert(boxed(g));
        let after = p.step(g, skip_invisible);
        let before = glyphs.take(n - 1).filter(keep);
        assert(glyphs.take(n).drop_last() =~= glyphs.take(n - 1));
        assert(glyphs.take(n).last() == g);
        let ended = if open.len() == 0 {
            done
        } else {
            done.push(open)
        };
        assert(items_of(p.seg.flushed(p.items), ended) && joined(ended) == before) by {
            if open.len() > 0 {
                lemma_items_of_flushed(p, done, open);
                assert(ended.drop_last() =~= done);
            } else {
                assert(joined(done) + open =~= joined(done));
            }
        }
        assert forall|k: int| 0 <= k < ended.len() implies coherent(#[trigger] ended[k]) by {
            if k < done.len() {
                assert(ended[k] == done[k]);
            }
        }
        if !drawn(g, skip_invisible) {
            lemma_not_drawn(p, g, skip_invisible);
            if !(skip_invisible && g.invisible) && (g.text == '\n' || g.text == '\r') {
                let empty = Seq::<GlyphView>::empty();
                assert(joined(ended) + empty =~= before);
                (ended, empty)
            } else {
                (done, open)
            }
        } else if p.seg.has_content && !separates(p.seg, g.text, g) {
            lemma_covers_next(p, open, g, skip_invisible);
            lemma_joined_adjoins(p.seg, open, g);
            let grown = open.push(g);
            assert(joined(done) + grown =~= before.push(g));
            assert forall|m: int| 1 <= m < grown.len() implies #[trigger] adjoins(
                grown.take(m),
                grown[m],
            ) by {
                if m < open.len() {
                    assert(grown.take(m) =~= open.take(m));
                    assert(adjoins(open.take(m), open[m]));
                } else {
                    assert(grown.take(m) =~= open);
                }
            }
            assert forall|k: int| 0 <= k < grown.len() implies boxed(#[trigger] grown[k]) by {
                if k < open.len() {
                    assert(grown[k] == open[k]);
                }
            }
            (done, grown)
        } else {
            lemma_covers_first(p, g, skip_invisible);
            assert(joined(ended) + seq![g] =~= before.push(g));
            (ended, seq![g])
        }
    }
}

/// The items of a page, before duplicates go, are runs of the glyphs that it draws: every drawn
/// glyph is in one run, in the order of drawing; each glyph of a run stands next to those before
/// it; and each run that is not blank is shown by one item, whose box is the union of the boxes of
/// its glyphs.
pub proof fn lemma_page_is_runs(glyphs: Seq<GlyphView>) -> (runs: Seq<Seq<GlyphView>>)
    requires
        forall|i: int| 0 <= i < glyphs.len() ==> boxed(#[trigger] glyphs[i]),
    ensures
        joined(runs) == glyphs.filter(|g: GlyphView| drawn(g, skips_invisible(glyphs))),
        forall|k: int| 0 <= k < runs.len() ==> coherent(#[trigger] runs[k]),
        items_of(grouped(glyphs), runs),
{
    let skip_invisible = skips_invisible(glyphs);
    let n = glyphs.len() as int;
    let (done, open) = lemma_runs(glyphs, skip_invisible, n);
    let p = progress(glyphs, skip_invisible, n);
    assert(glyphs.take(n) =~= glyphs);
    if open.len() == 0 {
        assert(joined(done) + open =~= joined(done));
        done
    } else {
        lemma_items_of_flushed(p, done, open);
        let runs = done.push(open);
        assert(runs.drop_last() =~= done);
        assert forall|k: int| 0 <= k < runs.len() implies coherent(#[trigger] runs[k]) by {
            if k < done.len() {
                assert(runs[k] == done[k]);
            }
        }
        runs
    }
}

} // verus!
