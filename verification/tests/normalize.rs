use liteparse::normalize::{
    next_non_space, normalize_segment_text, should_collapse_domain_space_after_dot,
    should_collapse_space_before_punctuation,
};

#[test]
fn normalize_removes_space_before_punctuation() {
    assert_eq!(normalize_segment_text("Smith , John ."), "Smith, John.");
}

#[test]
fn normalize_collapses_domain_dot_spacing() {
    assert_eq!(normalize_segment_text("dkriesel . com"), "dkriesel.com");
}

#[test]
fn normalize_preserves_slash_spacing() {
    assert_eq!(normalize_segment_text("Popoola / Data"), "Popoola / Data");
}

#[test]
fn runs_of_spaces_go_as_one() {
    assert_eq!(normalize_segment_text("a   , b  c"), "a, b  c");
    assert_eq!(normalize_segment_text("tail   "), "tail   ");
    assert_eq!(normalize_segment_text(""), "");
}

#[test]
fn domain_spacing_needs_a_domain() {
    assert_eq!(normalize_segment_text("www. Example. com"), "www. Example. com");
    assert_eq!(normalize_segment_text("www. example"), "www. example");
    assert_eq!(normalize_segment_text("www. exampl"), "www.exampl");
    assert_eq!(normalize_segment_text("wwwX. com"), "wwwX.com");
    assert_eq!(normalize_segment_text("Done. next"), "Done. next");
    assert_eq!(normalize_segment_text("done. next"), "done.next");
    assert_eq!(normalize_segment_text("done. next-one"), "done. next-one");
    assert_eq!(normalize_segment_text("a.b. com"), "a.b. com");
    assert_eq!(normalize_segment_text("ab. com"), "ab. com");
    assert_eq!(normalize_segment_text("123. com"), "123. com");
    assert_eq!(normalize_segment_text("Me@host. org"), "Me@host.org");
    assert_eq!(normalize_segment_text("(site. org"), "(site.org");
    assert_eq!(normalize_segment_text("x\u{3000}site. org"), "x\u{3000}site.org");
}

#[test]
fn normalizing_twice_normalizes_once() {
    for text in ["Smith , John .", "dkriesel . com", "a . b , c. net . x", "www . foo . com ; y"] {
        let once = normalize_segment_text(text);
        assert_eq!(normalize_segment_text(&once), once);
    }
}

#[test]
fn normalizing_only_drops_spaces() {
    let text = "one , two . three. com ! ( four ) 5 %";
    let strip = |s: &str| s.chars().filter(|c| *c != ' ').collect::<String>();
    assert_eq!(strip(&normalize_segment_text(text)), strip(text));
    assert_eq!(normalize_segment_text(text), "one, two.three. com! ( four) 5%");
}

#[test]
fn helpers_on_given_values() {
    let chars: Vec<char> = "a  b".chars().collect();
    assert_eq!(next_non_space(&chars, 1), Some((3, 'b')));
    assert_eq!(next_non_space(&chars, 4), None);
    assert_eq!(next_non_space(&chars, 9), None);
    assert!(should_collapse_space_before_punctuation('%'));
    assert!(!should_collapse_space_before_punctuation('/'));
    let rest: Vec<char> = "com".chars().collect();
    assert!(should_collapse_domain_space_after_dot("kriesel.", &rest, 0));
    assert!(!should_collapse_domain_space_after_dot("kriesel", &rest, 0));
}
