//! What extraction hands out.
use crate::scalar::Scalar;
use vstd::prelude::*;

verus! {

use crate::scalar::signed;

/// One run of text on a page, with its bounding box in viewport space.
#[derive(Clone, Debug)]
pub struct TextItem {
    pub text: String,
    pub x: Scalar,
    pub y: Scalar,
    pub width: Scalar,
    pub height: Scalar,
    pub rotation: Scalar,
    pub font_name: Option<String>,
    pub font_size: Option<Scalar>,
    pub font_height: Option<Scalar>,
    pub font_ascent: Option<Scalar>,
    pub font_descent: Option<Scalar>,
    pub font_weight: Option<i32>,
    pub font_flags: Option<i32>,
    pub text_width: Option<Scalar>,
    pub font_is_buggy: bool,
    pub mcid: Option<i32>,
    pub fill_color: Option<String>,
    pub stroke_color: Option<String>,
    pub confidence: Option<Scalar>,
}

/// The contents of a [`TextItem`], with its strings as sequences of characters.
pub struct TextItemView {
    pub text: Seq<char>,
    pub x: Scalar,
    pub y: Scalar,
    pub width: Scalar,
    pub height: Scalar,
    pub rotation: Scalar,
    pub font_name: Option<Seq<char>>,
    pub font_size: Option<Scalar>,
    pub font_height: Option<Scalar>,
    pub font_ascent: Option<Scalar>,
    pub font_descent: Option<Scalar>,
    pub font_weight: Option<i32>,
    pub font_flags: Option<i32>,
    pub text_width: Option<Scalar>,
    pub font_is_buggy: bool,
    pub mcid: Option<i32>,
    pub fill_color: Option<Seq<char>>,
    pub stroke_color: Option<Seq<char>>,
    pub confidence: Option<Scalar>,
}

/// The characters of a string that may be missing.
pub open spec fn optional_text(s: Option<String>) -> Option<Seq<char>> {
    match s {
        Some(s) => Some(s@),
        None => None,
    }
}

impl View for TextItem {
    type V = TextItemView;

    open spec fn view(&self) -> TextItemView {
        TextItemView {
            text: self.text@,
            x: self.x,
            y: self.y,
            width: self.width,
            height: self.height,
            rotation: self.rotation,
            font_name: optional_text(self.font_name),
            font_size: self.font_size,
            font_height: self.font_height,
            font_ascent: self.font_ascent,
            font_descent: self.font_descent,
            font_weight: self.font_weight,
            font_flags: self.font_flags,
            text_width: self.text_width,
            font_is_buggy: self.font_is_buggy,
            mcid: self.mcid,
            fill_color: optional_text(self.fill_color),
            stroke_color: optional_text(self.stroke_color),
            confidence: self.confidence,
        }
    }
}

impl Default for TextItem {
    /// An item without text at the origin.
    fn default() -> (r: TextItem)
        ensures
            r@ == (TextItemView {
                text: Seq::empty(),
                x: signed(false, 0),
                y: signed(false, 0),
                width: signed(false, 0),
                height: signed(false, 0),
                rotation: signed(false, 0),
                font_name: None,
                font_size: None,
                font_height: None,
                font_ascent: None,
                font_descent: None,
                font_weight: None,
                font_flags: None,
                text_width: None,
                font_is_buggy: false,
                mcid: None,
                fill_color: None,
                stroke_color: None,
                confidence: None,
            }),
    {
        TextItem {
            text: String::new(),
            x: Scalar::zero(),
            y: Scalar::zero(),
            width: Scalar::zero(),
            height: Scalar::zero(),
            rotation: Scalar::zero(),
            font_name: None,
            font_size: None,
            font_height: None,
            font_ascent: None,
            font_descent: None,
            font_weight: None,
            font_flags: None,
            text_width: None,
            font_is_buggy: false,
            mcid: None,
            fill_color: None,
            stroke_color: None,
            confidence: None,
        }
    }
}

/// The contents of a list of items.
pub open spec fn item_views(items: Seq<TextItem>) -> Seq<TextItemView> {
    items.map_values(|item: TextItem| item@)
}

/// Where a document comes from.
#[derive(Clone, Debug)]
pub enum PdfInput {
    /// The file at a path.
    Path(String),
    /// The bytes of a file.
    Bytes(Vec<u8>),
}

/// The text of one page.
#[derive(Clone, Debug)]
pub struct Page {
    pub page_number: usize,
    pub page_width: Scalar,
    pub page_height: Scalar,
    pub text_items: Vec<TextItem>,
}

/// The contents of a [`Page`].
pub struct PageView {
    pub page_number: nat,
    pub page_width: Scalar,
    pub page_height: Scalar,
    pub text_items: Seq<TextItemView>,
}

impl View for Page {
    type V = PageView;

    open spec fn view(&self) -> PageView {
        PageView {
            page_number: self.page_number as nat,
            page_width: self.page_width,
            page_height: self.page_height,
            text_items: item_views(self.text_items@),
        }
    }
}

/// The contents of a list of pages.
pub open spec fn page_views(pages: Seq<Page>) -> Seq<PageView> {
    pages.map_values(|page: Page| page@)
}

/// A copy of a string that may be missing.
pub(crate) fn clone_text(s: &Option<String>) -> (r: Option<String>)
    ensures
        optional_text(r) == optional_text(*s),
{
    match s {
        Some(s) => Some(s.clone()),
        None => None,
    }
}

} // verus!
