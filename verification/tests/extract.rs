use liteparse::chars::{is_buggy_codepoint, is_control, is_whitespace, no_space_after, no_space_before};
use liteparse::dedup::{dedup_overlapping_items, repeat_of, Repeat};
use liteparse::extract::{expand_ligature, extract_page_text_items, group_glyphs};
use liteparse::geometry::RectF;
use liteparse::glyph::{should_skip_invisible, GlyphItem};
use liteparse::scalar::Scalar;
use liteparse::segment::SegmentBuilder;
use liteparse::types::TextItem;

fn s(v: f32) -> Scalar {
    Scalar::from_bits(v.to_bits())
}

fn f(v: Scalar) -> f32 {
    f32::from_bits(v.bits)
}

fn rect(left: f32, top: f32, right: f32, bottom: f32) -> RectF {
    RectF { left: s(left), top: s(top), right: s(right), bottom: s(bottom) }
}

fn ti(text: &str, x: f32, y: f32, w: f32, h: f32) -> TextItem {
    TextItem {
        text: text.to_string(),
        x: s(x),
        y: s(y),
        width: s(w),
        height: s(h),
        ..Default::default()
    }
}

fn glyph_item(text: char, left: f32, right: f32) -> GlyphItem {
    GlyphItem {
        text,
        loose: rect(left, 0.0, right, 10.0),
        strict: rect(left, 0.0, right, 10.0),
        invisible: false,
        rotation_deg: s(0.0),
        font_size: Some(s(10.0)),
        text_width: Some(s((right - left).max(0.0))),
        fill_color: None,
        stroke_color: None,
    }
}

fn at_line(mut glyph: GlyphItem, top: f32) -> GlyphItem {
    glyph.loose.top = s(top);
    glyph.loose.bottom = s(top + 10.0);
    glyph.strict = glyph.loose;
    glyph
}

fn texts(items: &[TextItem]) -> Vec<&str> {
    items.iter().map(|i| i.text.as_str()).collect()
}

#[test]
fn dedup_exact_overlap_keeps_later_item() {
    let mut items = vec![ti("A", 0.0, 0.0, 10.0, 10.0), ti("A", 1.0, 1.0, 10.0, 10.0)];
    dedup_overlapping_items(&mut items);
    assert_eq!(items.len(), 1);
    assert_eq!(items[0].x, s(1.0));
}

#[test]
fn dedup_keeps_non_overlapping_items() {
    let mut items = vec![ti("A", 0.0, 0.0, 10.0, 10.0), ti("A", 20.0, 0.0, 10.0, 10.0)];
    dedup_overlapping_items(&mut items);
    assert_eq!(items.len(), 2);
}

#[test]
fn invisible_only_text_is_kept() {
    let glyphs = vec![GlyphItem {
        text: 'A',
        loose: rect(0.0, 0.0, 10.0, 10.0),
        strict: rect(0.0, 0.0, 10.0, 10.0),
        invisible: true,
        rotation_deg: s(0.0),
        font_size: Some(s(10.0)),
        text_width: Some(s(10.0)),
        fill_color: None,
        stroke_color: None,
    }];

    assert!(!should_skip_invisible(&glyphs));
}

#[test]
fn inferred_space_from_glyph_gap() {
    let glyphs = vec![
        glyph_item('H', 0.0, 5.0),
        glyph_item('i', 5.5, 6.5),
        glyph_item('t', 10.0, 14.0),
        glyph_item('h', 14.2, 18.2),
        glyph_item('e', 18.4, 22.4),
        glyph_item('r', 22.6, 25.6),
        glyph_item('e', 25.8, 29.8),
    ];

    let items = extract_page_text_items(glyphs);
    assert_eq!(items.len(), 1);
    assert_eq!(items[0].text, "Hi there");
}

#[test]
fn inferred_space_skips_punctuation() {
    let glyphs = vec![glyph_item('A', 0.0, 5.0), glyph_item(',', 9.0, 11.0)];

    let items = extract_page_text_items(glyphs);
    assert_eq!(items.len(), 1);
    assert_eq!(items[0].text, "A,");
}

#[test]
fn near_duplicates_go_by_area() {
    let mut items = vec![ti("A", 0.0, 0.0, 10.0, 10.0), ti("B", 1.0, 1.0, 10.0, 10.0)];
    dedup_overlapping_items(&mut items);
    assert_eq!(texts(&items), vec!["B"]);

    // Half an overlap is not more than half.
    let mut items = vec![ti("A", 0.0, 0.0, 10.0, 10.0), ti("B", 5.0, 0.0, 10.0, 10.0)];
    dedup_overlapping_items(&mut items);
    assert_eq!(texts(&items), vec!["A", "B"]);

    // A small item inside a much larger one stays.
    let mut items = vec![ti("A", 0.0, 0.0, 10.0, 10.0), ti("B", 1.0, 1.0, 2.0, 2.0)];
    dedup_overlapping_items(&mut items);
    assert_eq!(texts(&items), vec!["A", "B"]);

    // The same text there goes.
    let mut items = vec![ti("A", 0.0, 0.0, 10.0, 10.0), ti("A", 1.0, 1.0, 2.0, 2.0)];
    dedup_overlapping_items(&mut items);
    assert_eq!(items.len(), 1);
    assert_eq!(items[0].x, s(1.0));

    // Boxes that only touch do not overlap.
    let mut items = vec![ti("A", 0.0, 0.0, 10.0, 10.0), ti("A", 10.0, 0.0, 10.0, 10.0)];
    dedup_overlapping_items(&mut items);
    assert_eq!(items.len(), 2);
}

#[test]
fn dedup_looks_at_all_later_items_and_keeps_the_last() {
    // The first is repeated only by the second, which the third repeats in turn.
    let mut items = vec![
        ti("A", 0.0, 0.0, 10.0, 10.0),
        ti("A", 9.0, 0.0, 10.0, 10.0),
        ti("A", 18.0, 0.0, 10.0, 10.0),
    ];
    dedup_overlapping_items(&mut items);
    assert_eq!(items.len(), 1);
    assert_eq!(items[0].x, s(18.0));
    dedup_overlapping_items(&mut items);
    assert_eq!(items.len(), 1);

    let mut none: Vec<TextItem> = Vec::new();
    dedup_overlapping_items(&mut none);
    assert!(none.is_empty());
}

#[test]
fn repeats_are_told_apart_by_the_first_one() {
    let items = vec![
        ti("A", 0.0, 0.0, 10.0, 10.0),
        ti("B", 1.0, 1.0, 10.0, 10.0),
        ti("A", 2.0, 2.0, 10.0, 10.0),
        ti("C", 30.0, 0.0, 10.0, 10.0),
        ti("C", 39.0, 0.0, 10.0, 10.0),
    ];
    let kinds: Vec<Option<Repeat>> = (0..5).map(|i| repeat_of(&items, i)).collect();
    assert_eq!(
        kinds,
        vec![Some(Repeat::SameBox), Some(Repeat::SameBox), None, Some(Repeat::SameText), None]
    );
    let mut left = items.clone();
    dedup_overlapping_items(&mut left);
    assert_eq!(texts(&left), vec!["A", "C"]);
    assert_eq!(left[1].x, s(39.0));
}

#[test]
fn grouping_comes_before_duplicates_go() {
    let twice = vec![glyph_item('x', 0.0, 5.0), glyph_item('\n', 5.0, 6.0), glyph_item('x', 0.0, 5.0)];
    let grouped = group_glyphs(&twice);
    assert_eq!(texts(&grouped), vec!["x", "x"]);
    assert_eq!(repeat_of(&grouped, 0), Some(Repeat::SameText));
    assert_eq!(texts(&extract_page_text_items(twice)), vec!["x"]);
    assert!(group_glyphs(&[]).is_empty());
}

#[test]
fn invisible_minority_is_skipped() {
    let page = |visible: usize, invisible: usize| -> Vec<GlyphItem> {
        let mut v: Vec<GlyphItem> = Vec::new();
        for i in 0..visible + invisible {
            let mut g = glyph_item('x', i as f32 * 5.0, i as f32 * 5.0 + 5.0);
            g.invisible = i >= visible;
            v.push(g);
        }
        let mut blank = glyph_item(' ', 0.0, 1.0);
        blank.invisible = true;
        v.push(blank);
        v
    };
    assert!(should_skip_invisible(&page(8, 2)));
    assert!(!should_skip_invisible(&page(7, 3)));
    assert!(!should_skip_invisible(&page(71, 31)));
    assert!(should_skip_invisible(&page(71, 30)));
    assert!(!should_skip_invisible(&page(4, 0)));
    assert!(!should_skip_invisible(&page(0, 4)));
    assert_eq!(texts(&extract_page_text_items(page(8, 2))), vec!["xxxxxxxx"]);
    assert_eq!(texts(&extract_page_text_items(page(7, 3))), vec!["xxxxxxxxxx"]);
}

#[test]
fn item_takes_the_box_and_font_of_its_glyphs() {
    let mut a = glyph_item('a', 0.0, 5.0);
    a.fill_color = Some("ff000000".to_string());
    a.rotation_deg = s(90.0);
    let mut b = glyph_item('b', 5.0, 11.0);
    b.loose.top = s(-1.0);
    b.fill_color = Some("ffffffff".to_string());
    let items = extract_page_text_items(vec![a, b]);
    assert_eq!(texts(&items), vec!["ab"]);
    let item = &items[0];
    assert_eq!((f(item.x), f(item.y)), (0.0, -1.0));
    assert_eq!((f(item.width), f(item.height)), (11.0, 11.0));
    assert_eq!(f(item.rotation), 90.0);
    assert_eq!(item.font_size.map(f), Some(10.0));
    assert_eq!(item.font_height.map(f), Some(10.0));
    assert_eq!(item.text_width.map(f), Some(11.0));
    assert_eq!(item.fill_color.as_deref(), Some("ff000000"));
    assert_eq!(item.stroke_color, None);
    assert!(!item.font_is_buggy);
}

#[test]
fn segments_split_at_lines_columns_and_leaders() {
    // A newline ends the segment; a lone one leaves nothing.
    let items = extract_page_text_items(vec![
        glyph_item('\n', 0.0, 1.0),
        glyph_item('a', 0.0, 5.0),
        glyph_item('\r', 5.0, 5.1),
        glyph_item('b', 5.0, 10.0),
    ]);
    assert_eq!(texts(&items), vec!["a", "b"]);

    // A gap of fifteen is a column break, a smaller one a space.
    let items = extract_page_text_items(vec![glyph_item('a', 0.0, 5.0), glyph_item('b', 20.0, 25.0)]);
    assert_eq!(texts(&items), vec!["a", "b"]);
    let items = extract_page_text_items(vec![glyph_item('a', 0.0, 5.0), glyph_item('b', 19.9, 25.0)]);
    assert_eq!(texts(&items), vec!["a b"]);

    // Another line.
    let items =
        extract_page_text_items(vec![glyph_item('a', 0.0, 5.0), at_line(glyph_item('b', 0.0, 5.0), 13.0)]);
    assert_eq!(texts(&items), vec!["a", "b"]);

    // A drawn space, and one with too wide a gap behind it.
    let items = extract_page_text_items(vec![
        glyph_item('a', 0.0, 5.0),
        glyph_item(' ', 5.0, 7.0),
        glyph_item('b', 7.0, 12.0),
        glyph_item(' ', 12.0, 14.0),
        glyph_item('c', 24.0, 29.0),
    ]);
    assert_eq!(texts(&items), vec!["a b", "c"]);

    // Dots after a space start a leader, and three of them end before other text.
    let items = extract_page_text_items(vec![
        glyph_item('a', 0.0, 5.0),
        glyph_item(' ', 5.0, 7.0),
        glyph_item('.', 7.0, 9.0),
        glyph_item('.', 9.0, 11.0),
        glyph_item('.', 11.0, 13.0),
        glyph_item(' ', 13.0, 14.0),
        glyph_item('7', 14.0, 18.0),
    ]);
    assert_eq!(texts(&items), vec!["a", "...", "7"]);

    // Control characters and flat glyphs are passed over.
    let mut flat = glyph_item('x', 5.0, 10.0);
    flat.loose.bottom = s(0.4);
    let items = extract_page_text_items(vec![
        glyph_item('a', 0.0, 5.0),
        glyph_item('\u{1f}', 5.0, 6.0),
        flat,
        glyph_item('b', 5.0, 10.0),
    ]);
    assert_eq!(texts(&items), vec!["ab"]);
    assert!(extract_page_text_items(Vec::new()).is_empty());
}

#[test]
fn item_text_is_trimmed_and_repaired() {
    let items = extract_page_text_items(vec![
        glyph_item('\u{a0}', 0.0, 5.0),
        glyph_item('a', 5.0, 10.0),
        glyph_item(' ', 10.0, 12.0),
        glyph_item(',', 12.0, 14.0),
        glyph_item('\u{3000}', 14.0, 16.0),
    ]);
    assert_eq!(texts(&items), vec!["a,"]);
    assert!(extract_page_text_items(vec![glyph_item('\u{a0}', 0.0, 5.0)]).is_empty());
}

#[test]
fn grouping_keeps_the_characters_in_order() {
    let text = "One, two. \u{1f}Three\n(four) - 5%";
    let mut glyphs: Vec<GlyphItem> = Vec::new();
    for (i, c) in text.chars().enumerate() {
        // Uneven gaps, so that spaces are inferred and segments split.
        let left = i as f32 * 6.0 + (i % 5) as f32 * 4.0 + (i / 9) as f32 * 30.0;
        glyphs.push(glyph_item(c, left, left + 5.0));
    }
    let items = extract_page_text_items(glyphs);
    let got: String =
        items.iter().flat_map(|i| i.text.chars()).filter(|c| !c.is_whitespace()).collect();
    let want: String =
        text.chars().filter(|c| !c.is_whitespace() && !c.is_control()).collect();
    assert_eq!(got, want);
    assert!(items.len() > 1);
    for item in &items {
        assert_eq!(item.text, item.text.trim());
        assert!(!item.text.contains(" ,") && !item.text.contains(" ."));
    }
}

#[test]
fn builder_steps() {
    let mut seg = SegmentBuilder::new();
    assert_eq!(f(seg.avg_char_width()), 5.0);
    seg.mark_pending_space();
    assert!(!seg.pending_space);
    let g = glyph_item('\u{e001}', 0.0, 4.0);
    seg.start(g.text, &g.loose, &g.strict, &g);
    assert!(seg.font_is_buggy);
    seg.append_ligature_tail("fi");
    assert_eq!(seg.last_char, Some('i'));
    seg.append_ligature_tail("");
    assert_eq!(seg.last_char, Some('i'));
    let mut wide = glyph_item('x', 4.0, 10.0);
    wide.text_width = None;
    seg.push_char('x', &wide.loose, &wide.strict, &wide);
    assert_eq!(seg.char_count, 2);
    assert_eq!(f(seg.avg_char_width()), 5.0);
    assert!(seg.should_insert_inferred_space('y', s(2.76)));
    assert!(!seg.should_insert_inferred_space('y', s(2.75)));
    assert!(!seg.should_insert_inferred_space('%', s(9.0)));
    assert!(!seg.should_insert_inferred_space('y', s(-1.0)));
    seg.insert_inferred_space();
    seg.insert_inferred_space();
    seg.mark_pending_space();
    assert!(!seg.should_insert_inferred_space('y', s(9.0)));
    seg.commit_pending_space();
    seg.commit_pending_space();
    assert_eq!(seg.text.iter().collect::<String>(), "\u{e001}fix  ");
    assert!(seg.has_non_dot_content());
    let mut items: Vec<TextItem> = Vec::new();
    seg.flush(&mut items);
    assert!(!seg.has_content);
    seg.flush(&mut items);
    assert_eq!(texts(&items), vec!["\u{e001}fix"]);
    assert!(items[0].font_is_buggy);
}

#[test]
fn character_classes_agree_with_std() {
    for code in 0..=0x10ffffu32 {
        if let Some(c) = char::from_u32(code) {
            assert_eq!(is_whitespace(c), c.is_whitespace(), "{:x}", code);
            assert_eq!(is_control(c), c.is_control(), "{:x}", code);
        }
    }
    assert!(is_buggy_codepoint(0x1f) && !is_buggy_codepoint(0x20));
    assert!(!is_buggy_codepoint(0xe000) && is_buggy_codepoint(0xe001));
    assert!(is_buggy_codepoint(0xf8ff) && !is_buggy_codepoint(0xf900));
    assert!(no_space_before('"') && no_space_before(')') && !no_space_before('('));
    assert!(no_space_after('(') && no_space_after('/') && !no_space_after(')'));
}

#[test]
fn ligature_codes_are_spelled_out() {
    assert_eq!(expand_ligature('\u{2}'), ('-', ""));
    assert_eq!(expand_ligature('\u{1a}'), ('f', "f"));
    assert_eq!(expand_ligature('\u{1b}'), ('f', "t"));
    assert_eq!(expand_ligature('\u{1c}'), ('f', "i"));
    assert_eq!(expand_ligature('\u{1d}'), ('T', "h"));
    assert_eq!(expand_ligature('\u{1e}'), ('f', "fi"));
    assert_eq!(expand_ligature('\u{1f}'), ('f', "l"));
    assert_eq!(expand_ligature('q'), ('q', ""));
}
