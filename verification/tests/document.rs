use hayro::hayro_syntax::Pdf;
use liteparse::document::{
    extract_page, extract_pages_from_document, extract_pages_from_input, image_bounds_for_page,
    load_document, load_document_from_input, load_error, DecryptionFailure, LoadFailure,
};
use liteparse::error::LiteParseError;
use liteparse::geometry::{filter_images, ImageBounds, RectF};
use liteparse::glyph::{argb_hex, fallback_glyph_box, GlyphDrawMode, PageContentCollector};
use liteparse::scalar::Scalar;
use liteparse::types::PdfInput;
use std::io::{Error, ErrorKind};

fn s(v: f32) -> Scalar {
    Scalar::from_bits(v.to_bits())
}

fn f(v: Scalar) -> f32 {
    f32::from_bits(v.bits)
}

/// A document with one page per entry of `boxes`, and `trailer` among its trailer entries.
fn pdf(boxes: &[&str], trailer: &str) -> Vec<u8> {
    let mut out = String::from("%PDF-1.4\n");
    let mut offsets: Vec<usize> = Vec::new();
    let contents = 3 + boxes.len();
    let kids: Vec<String> = (0..boxes.len()).map(|i| format!("{} 0 R", i + 3)).collect();
    let mut bodies = vec![
        "<< /Type /Catalog /Pages 2 0 R >>".to_string(),
        format!("<< /Type /Pages /Count {} /Kids [{}] >>", boxes.len(), kids.join(" ")),
    ];
    for b in boxes {
        bodies.push(format!("<< /Type /Page /Parent 2 0 R /Contents {} 0 R {} >>", contents, b));
    }
    bodies.push("<< /Length 0 >>\nstream\n\nendstream".to_string());
    for (i, body) in bodies.iter().enumerate() {
        offsets.push(out.len());
        out.push_str(&format!("{} 0 obj\n{}\nendobj\n", i + 1, body));
    }
    let xref = out.len();
    out.push_str(&format!("xref\n0 {}\n0000000000 65535 f \n", bodies.len() + 1));
    for offset in &offsets {
        out.push_str(&format!("{:010} 00000 n \n", offset));
    }
    out.push_str(&format!(
        "trailer\n<< /Size {} /Root 1 0 R {} >>\nstartxref\n{}\n%%EOF\n",
        bodies.len() + 1,
        trailer,
        xref
    ));
    out.into_bytes()
}

/// RC4 with forty bits, opened by the password `open`.
const ENCRYPTED: &str = "/ID [<00112233445566778899aabbccddeeff> <00112233445566778899aabbccddeeff>] \
/Encrypt << /Filter /Standard /V 1 /R 2 /P -4 \
/O <8eeb095819662a774442fb072e3d9f19e9d130ec09a4d0061e78fe920f7ab62f> \
/U <60cd8d4e2074895daae2f87d7823889d5c5e2d3f3d7fae20a856c0dde0addc62> >>";

fn three_pages() -> Vec<u8> {
    pdf(
        &[
            "/MediaBox [0 0 200 300]",
            "/MediaBox [0 0 400 500] /Rotate 90",
            "/MediaBox [0 0 612 792] /CropBox [12 92 612 792]",
        ],
        "",
    )
}

/// One glyph per page: the digit of the page's index, and an image.
fn draw(_document: &Pdf, index: usize) -> PageContentCollector {
    let mut content = PageContentCollector::default();
    let c = char::from_digit(index as u32, 10);
    let rect = RectF::from_corners(s(1.0), s(2.0), s(6.0), s(12.0));
    content.draw_glyph(c, [0; 6], GlyphDrawMode::Fill, rect, s(0.0), s(10.0), Some((1, 2, 3, 255)));
    content.draw_image(RectF::from_corners(s(0.0), s(0.0), s(50.0), s(60.0)));
    content.draw_image(RectF::from_corners(s(0.0), s(0.0), s(5.0), s(60.0)));
    content
}

/// Knows one file, of three pages.
fn read(path: &String) -> Result<Vec<u8>, Error> {
    if path == "three.pdf" {
        Ok(three_pages())
    } else {
        Err(Error::new(ErrorKind::NotFound, "no such file"))
    }
}

fn numbers(targets: Option<&[u32]>, max_pages: usize) -> Vec<usize> {
    extract_pages_from_input(&PdfInput::Bytes(three_pages()), targets, max_pages, None, read, draw)
        .unwrap()
        .iter()
        .map(|p| p.page_number)
        .collect()
}

fn pdf_error(r: Result<Pdf, LiteParseError>) -> String {
    match r {
        Err(LiteParseError::Pdf(text)) => text,
        Err(LiteParseError::Other(text)) => format!("other: {}", text),
        Err(LiteParseError::Io(e)) => format!("io: {}", e),
        Ok(_) => "opened".to_string(),
    }
}

#[test]
fn pages_have_numbers_sizes_and_text() {
    let input = PdfInput::Bytes(three_pages());
    let pages = extract_pages_from_input(&input, None, usize::MAX, None, read, draw).unwrap();
    let sizes: Vec<(usize, f32, f32)> =
        pages.iter().map(|p| (p.page_number, f(p.page_width), f(p.page_height))).collect();
    assert_eq!(sizes, vec![(1, 200.0, 300.0), (2, 500.0, 400.0), (3, 600.0, 700.0)]);
    let texts: Vec<&str> = pages.iter().map(|p| p.text_items[0].text.as_str()).collect();
    assert_eq!(texts, vec!["0", "1", "2"]);
    assert_eq!(pages[0].text_items[0].fill_color.as_deref(), Some("ff010203"));
    assert_eq!(f(pages[0].text_items[0].x), 1.0);
}

#[test]
fn pages_are_selected_by_number_and_limit() {
    assert_eq!(numbers(None, 2), vec![1, 2]);
    assert_eq!(numbers(None, 0), Vec::<usize>::new());
    assert_eq!(numbers(Some(&[3, 1, 3]), 9), vec![1, 3]);
    assert_eq!(numbers(Some(&[2, 3]), 1), vec![2]);
    assert_eq!(numbers(Some(&[0, 4]), 9), Vec::<usize>::new());
    assert_eq!(numbers(Some(&[]), 9), Vec::<usize>::new());
}

#[test]
fn fewer_pages_are_the_first_of_more() {
    for targets in [None, Some([3u32, 1, 2].as_slice()), Some([3u32, 1].as_slice())] {
        let all = numbers(targets, 9);
        for limit in 0..5 {
            assert_eq!(numbers(targets, limit), all[..limit.min(all.len())].to_vec());
        }
    }
}

#[test]
fn only_listed_pages_of_the_document_matter() {
    for limit in 0..5 {
        assert_eq!(numbers(Some(&[3, 0, 1, 1, 7, u32::MAX]), limit), numbers(Some(&[1, 3]), limit));
        assert_eq!(numbers(Some(&[2, 3, 1, 9]), limit), numbers(None, limit));
    }
}

#[test]
fn extraction_fails_as_loading_does() {
    let data = pdf(&["/MediaBox [0 0 200 300]"], ENCRYPTED);
    let inputs = [PdfInput::Bytes(data), PdfInput::Bytes(b"no document".to_vec())];
    for (input, text) in inputs.iter().zip(["Decryption(PasswordProtected)", "Invalid"]) {
        assert_eq!(pdf_error(load_document_from_input(input, None, read)), text);
        for (targets, limit) in [(None, 0), (Some([].as_slice()), 9), (None, 9)] {
            match extract_pages_from_input(input, targets, limit, None, read, draw) {
                Err(LiteParseError::Pdf(e)) => assert_eq!(e, text),
                _ => panic!("loading fails"),
            }
        }
    }
}

#[test]
fn bytes_that_are_no_document_are_invalid() {
    assert_eq!(pdf_error(load_document(b"no document".to_vec(), None)), "Invalid");
    assert_eq!(pdf_error(load_document(Vec::new(), Some("open"))), "Invalid");
    let input = PdfInput::Bytes(Vec::new());
    assert!(extract_pages_from_input(&input, None, 1, None, read, draw).is_err());
}

#[test]
fn password_decides_over_an_encrypted_document() {
    let data = pdf(&["/MediaBox [0 0 200 300]"], ENCRYPTED);
    assert_eq!(pdf_error(load_document(data.clone(), None)), "Decryption(PasswordProtected)");
    assert_eq!(pdf_error(load_document(data.clone(), Some(""))), "Decryption(PasswordProtected)");
    assert_eq!(pdf_error(load_document(data.clone(), Some("shut"))), "Decryption(PasswordProtected)");
    assert_eq!(pdf_error(load_document(data.clone(), Some("open"))), "opened");
    let input = PdfInput::Bytes(data);
    let pages = extract_pages_from_input(&input, None, 9, Some("open"), read, draw).unwrap();
    assert_eq!(pages.len(), 1);
    assert_eq!(f(pages[0].page_height), 300.0);
}

#[test]
fn path_gives_what_its_bytes_give() {
    let path = PdfInput::Path("three.pdf".to_string());
    let bytes = PdfInput::Bytes(three_pages());
    for password in [None, Some(""), Some("open")] {
        let a = load_document_from_input(&path, password, read).ok().unwrap();
        let b = load_document_from_input(&bytes, password, read).ok().unwrap();
        assert_eq!(a.pages().len(), b.pages().len());
        assert_eq!(a.data().as_ref().as_ref(), three_pages().as_slice());
        assert_eq!(b.data().as_ref().as_ref(), three_pages().as_slice());
    }
    let pages = extract_pages_from_input(&path, Some(&[2]), 9, None, read, draw).ok().unwrap();
    assert_eq!(pages.len(), 1);
    assert_eq!(f(pages[0].page_width), 500.0);
}

#[test]
fn unreadable_path_is_reported() {
    let path = PdfInput::Path("none.pdf".to_string());
    match load_document_from_input(&path, None, read) {
        Err(LiteParseError::Io(e)) => assert_eq!(e.kind(), ErrorKind::NotFound),
        _ => panic!("there is no such file"),
    }
    match extract_pages_from_input(&path, None, 9, None, read, draw) {
        Err(LiteParseError::Io(e)) => assert_eq!(e.kind(), ErrorKind::NotFound),
        _ => panic!("there is no such file"),
    }
}

#[test]
fn other_encryption_failures_are_reported() {
    let id = "/ID [<00> <00>]";
    let foreign = pdf(&["/MediaBox [0 0 9 9]"], &format!("{} /Encrypt << /Filter /Other >>", id));
    assert_eq!(pdf_error(load_document(foreign, None)), "Decryption(UnsupportedAlgorithm)");
    let broken = pdf(&["/MediaBox [0 0 9 9]"], &format!("{} /Encrypt << /Filter /Standard >>", id));
    assert_eq!(pdf_error(load_document(broken, None)), "Decryption(InvalidEncryption)");
    match load_error(LoadFailure::Decryption(DecryptionFailure::MissingIDEntry)) {
        LiteParseError::Pdf(text) => assert_eq!(text, "Decryption(MissingIDEntry)"),
        LiteParseError::Other(_) | LiteParseError::Io(_) => panic!("another error"),
    }
}

#[test]
fn images_of_a_page_are_filtered() {
    let document = load_document(three_pages(), None).ok().unwrap();
    let images = image_bounds_for_page(&document, 0, s(10.0), s(0.9), draw).ok().unwrap();
    assert_eq!(images.len(), 1);
    assert_eq!((f(images[0].width), f(images[0].height)), (50.0, 60.0));
    match image_bounds_for_page(&document, 3, s(10.0), s(0.9), draw) {
        Err(LiteParseError::Other(text)) => assert_eq!(text, "page 4 out of range"),
        _ => panic!("page 4 does not exist"),
    }
    match image_bounds_for_page(&document, 1234567, s(10.0), s(0.9), draw) {
        Err(LiteParseError::Other(text)) => assert_eq!(text, "page 1234568 out of range"),
        _ => panic!("there are three pages"),
    }
    let pages = extract_pages_from_document(&document, Some(&[2]), 1, draw).ok().unwrap();
    assert_eq!(pages.len(), 1);
    assert_eq!(pages[0].page_number, 2);
}

#[test]
fn images_go_by_size_and_coverage() {
    let image = |w: f32, h: f32| ImageBounds { x: s(0.0), y: s(0.0), width: s(w), height: s(h) };
    let all = vec![image(10.0, 10.0), image(9.9, 50.0), image(95.0, 95.0), image(95.0, 50.0)];
    let kept = filter_images(&all, s(100.0), s(100.0), s(10.0), s(0.9));
    assert_eq!(kept, vec![all[0], all[3]]);
    let kept = filter_images(&all, s(0.0), s(100.0), s(10.0), s(0.9));
    assert_eq!(kept, vec![all[0], all[2], all[3]]);
}

#[test]
fn rectangles_need_an_area() {
    let r = RectF::from_corners(s(5.0), s(7.0), s(1.0), s(2.0)).unwrap();
    assert_eq!((f(r.left), f(r.top), f(r.right), f(r.bottom)), (1.0, 2.0, 5.0, 7.0));
    assert_eq!((f(r.width()), f(r.height())), (4.0, 5.0));
    assert!(RectF::from_corners(s(1.0), s(1.0), s(1.0), s(2.0)).is_none());
    assert!(RectF::from_corners(s(1.0), s(2.0), s(3.0), s(2.0)).is_none());
    assert!(RectF::from_corners(s(f32::NEG_INFINITY), s(1.0), s(1.0), s(2.0)).is_none());
    assert!(RectF::from_corners(s(f32::NAN), s(1.0), s(f32::NAN), s(2.0)).is_none());
}

#[test]
fn outline_of_the_last_glyph_is_not_recorded() {
    let rect = RectF::from_corners(s(0.0), s(0.0), s(5.0), s(10.0));
    let mut content = PageContentCollector::default();
    let red = Some((255, 0, 16, 128));
    content.draw_glyph(Some('a'), [1, 2, 3, 4, 5, 6], GlyphDrawMode::Fill, rect, s(0.0), s(0.0), red);
    content.draw_glyph(Some('a'), [1, 2, 3, 4, 5, 6], GlyphDrawMode::Stroke, rect, s(0.0), s(9.0), red);
    assert_eq!(content.glyphs.len(), 1);
    assert_eq!(content.glyphs[0].font_size, None);
    assert_eq!(content.glyphs[0].fill_color.as_deref(), Some("80ff0010"));
    content.draw_glyph(Some('a'), [1, 2, 3, 4, 5, 7], GlyphDrawMode::Stroke, rect, s(0.0), s(9.0), red);
    assert_eq!(content.glyphs.len(), 2);
    assert_eq!(content.glyphs[1].fill_color, None);
    assert_eq!(content.glyphs[1].stroke_color.as_deref(), Some("80ff0010"));
    assert_eq!(content.glyphs[1].font_size, Some(s(9.0)));
    content.draw_glyph(Some('a'), [1, 2, 3, 4, 5, 7], GlyphDrawMode::Invisible, rect, s(0.0), s(9.0), None);
    assert!(content.glyphs[2].invisible);
    content.draw_glyph(None, [0; 6], GlyphDrawMode::Fill, rect, s(0.0), s(9.0), None);
    content.draw_glyph(Some('b'), [0; 6], GlyphDrawMode::Fill, None, s(0.0), s(9.0), None);
    assert_eq!(content.glyphs.len(), 3);
    assert_eq!(content.last_glyph.map(|k| k.coeffs[5]), Some(7));
    content.draw_image(None);
    assert!(content.image_bounds.is_empty());
    let page = extract_page(7, (s(10.0).bits, s(20.0).bits), content);
    assert_eq!((page.page_number, f(page.page_width), f(page.page_height)), (7, 10.0, 20.0));
}

#[test]
fn colors_and_fallback_boxes() {
    assert_eq!(argb_hex((0, 0x9a, 0xff, 0x0f)), "0f009aff");
    assert_eq!(fallback_glyph_box(' '), (0, -1000, 250, 200));
    assert_eq!(fallback_glyph_box('x'), (0, -1000, 1000, 200));
}
