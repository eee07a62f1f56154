//! Rectangles in viewport space, with the origin at the top left.
use crate::scalar::Scalar;
use vstd::prelude::*;

verus! {

use crate::exact::{
    lemma_difference_nearest, lemma_product_at_least, lemma_product_at_most, measures, one,
};
use crate::scalar::{lemma_order_by_value, signed};

/// Bounding box of an embedded image object on a page.
#[derive(Clone, Copy, Debug, PartialEq, Eq, Structural)]
pub struct ImageBounds {
    pub x: Scalar,
    pub y: Scalar,
    pub width: Scalar,
    pub height: Scalar,
}

/// A rectangle by its sides.
#[derive(Clone, Copy, Debug, PartialEq, Eq, Structural)]
pub struct RectF {
    pub left: Scalar,
    pub top: Scalar,
    pub right: Scalar,
    pub bottom: Scalar,
}

impl RectF {
    pub open spec fn spec_width(self) -> Scalar {
        self.right.difference(self.left)
    }

    pub open spec fn spec_height(self) -> Scalar {
        self.bottom.difference(self.top)
    }

    /// Whether the sides are finite and enclose an area.
    pub open spec fn proper(self) -> bool {
        &&& self.left.finite()
        &&& self.right.finite()
        &&& self.top.finite()
        &&& self.bottom.finite()
        &&& self.left.less(self.right)
        &&& self.top.less(self.bottom)
    }

    /// The rectangle between two opposite corners, in whatever order they come.
    pub open spec fn between(x0: Scalar, y0: Scalar, x1: Scalar, y1: Scalar) -> RectF {
        RectF {
            left: x0.smaller(x1),
            top: y0.smaller(y1),
            right: x0.larger(x1),
            bottom: y0.larger(y1),
        }
    }

    /// The rectangle between two opposite corners, where its sides are finite and enclose an
    /// area.
    pub fn from_corners(x0: Scalar, y0: Scalar, x1: Scalar, y1: Scalar) -> (r: Option<RectF>)
        ensures
            r == (if RectF::between(x0, y0, x1, y1).proper() {
                Some(RectF::between(x0, y0, x1, y1))
            } else {
                None
            }),
    {
        let left: Scalar = x0.min(x1);
        let right: Scalar = x0.max(x1);
        let top: Scalar = y0.min(y1);
        let bottom: Scalar = y0.max(y1);
        if !left.is_finite() || !right.is_finite() || !top.is_finite() || !bottom.is_finite()
            || right.le(left) || bottom.le(top) {
            return None;
        }
        Some(RectF { left, top, right, bottom })
    }

    pub fn width(self) -> (w: Scalar)
        ensures
            w == self.spec_width(),
    {
        self.right.minus(self.left)
    }

    pub fn height(self) -> (h: Scalar)
        ensures
            h == self.spec_height(),
    {
        self.bottom.minus(self.top)
    }
}

impl ImageBounds {
    /// The box of an image that covers `rect`.
    pub open spec fn covering(rect: RectF) -> ImageBounds {
        ImageBounds {
            x: rect.left,
            y: rect.top,
            width: rect.spec_width(),
            height: rect.spec_height(),
        }
    }

    /// Whether the image is at least `min_size` in both directions and does not cover more than
    /// the share `max_coverage` of the page in both.
    pub open spec fn relevant(
        self,
        page_width: Scalar,
        page_height: Scalar,
        min_size: Scalar,
        max_coverage: Scalar,
    ) -> bool {
        &&& min_size.at_most(self.width)
        &&& min_size.at_most(self.height)
        &&& {
            ||| page_width.product(page_height).at_most(signed(false, 0))
            ||| !page_width.product(max_coverage).less(self.width)
            ||| !page_height.product(max_coverage).less(self.height)
        }
    }

    pub fn is_relevant(
        self,
        page_width: Scalar,
        page_height: Scalar,
        min_size: Scalar,
        max_coverage: Scalar,
    ) -> (b: bool)
        ensures
            b == self.relevant(page_width, page_height, min_size, max_coverage),
    {
        min_size.le(self.width) && min_size.le(self.height) && (page_width.times(page_height).le(
            Scalar::zero(),
        ) || !(page_width.times(max_coverage).lt(self.width) && page_height.times(max_coverage).lt(
            self.height,
        )))
    }
}

/// The images that [`ImageBounds::relevant`] lets through, in order.
pub open spec fn relevant_images(
    images: Seq<ImageBounds>,
    page_width: Scalar,
    page_height: Scalar,
    min_size: Scalar,
    max_coverage: Scalar,
) -> Seq<ImageBounds> {
    images.filter(|b: ImageBounds| b.relevant(page_width, page_height, min_size, max_coverage))
}

/// Keeps the images of a page that are neither too small nor its background.
pub fn filter_images(
    images: &[ImageBounds],
    page_width: Scalar,
    page_height: Scalar,
    min_size: Scalar,
    max_coverage: Scalar,
) -> (r: Vec<ImageBounds>)
    ensures
        r@ == relevant_images(images@, page_width, page_height, min_size, max_coverage),
{
    let ghost keep = |b: ImageBounds|
        b.relevant(page_width, page_height, min_size, max_coverage);
    let mut r: Vec<ImageBounds> = Vec::new();
    let mut i: usize = 0;
    while i < images.len()
        invariant
            i <= images.len(),
            keep == (|b: ImageBounds|
                b.relevant(page_width, page_height, min_size, max_coverage)),
            r@ == images@.take(i as int).filter(keep),
        decreases images.len() - i,
    {
        proof {
            reveal(Seq::filter);
            assert(images@.take(i + 1).drop_last() == images@.take(i as int));
        }
        if images[i].is_relevant(page_width, page_height, min_size, max_coverage) {
            r.push(images[i]);
        }
        i = i + 1;
    }
    assert(images@.take(i as int) == images@);
    r
}

/// The rectangle between two corners reaches from the smaller to the larger coordinate, in
/// whichever order the corners come, and it is one where both coordinates differ.
pub proof fn lemma_between_corners(x0: Scalar, y0: Scalar, x1: Scalar, y1: Scalar)
    requires
        x0.finite() && y0.finite() && x1.finite() && y1.finite(),
    ensures
        ({
            let r = RectF::between(x0, y0, x1, y1);
            &&& r.left.value() == (if x0.value() <= x1.value() { x0.value() } else { x1.value() })
            &&& r.right.value() == (if x0.value() <= x1.value() { x1.value() } else { x0.value() })
            &&& r.top.value() == (if y0.value() <= y1.value() { y0.value() } else { y1.value() })
            &&& r.bottom.value() == (if y0.value() <= y1.value() { y1.value() } else { y0.value() })
            &&& r.proper() <==> x0.value() != x1.value() && y0.value() != y1.value()
        }),
{
    lemma_order_by_value(x0, x1);
    lemma_order_by_value(x1, x0);
    lemma_order_by_value(y0, y1);
    lemma_order_by_value(y1, y0);
    let r = RectF::between(x0, y0, x1, y1);
    lemma_order_by_value(r.left, r.right);
    lemma_order_by_value(r.top, r.bottom);
}

/// No rectangle has a corner that is no number, or at infinity.
pub proof fn lemma_no_corner(x0: Scalar, y0: Scalar, x1: Scalar, y1: Scalar)
    requires
        !x0.finite() || !y0.finite() || !x1.finite() || !y1.finite(),
    ensures
        !RectF::between(x0, y0, x1, y1).proper(),
{
}

/// The box of an image is where the image is, with the sides rounded.
pub proof fn lemma_image_box(rect: RectF)
    requires
        rect.left.finite() && rect.right.finite() && rect.top.finite() && rect.bottom.finite(),
    ensures
        ({
            let b = ImageBounds::covering(rect);
            &&& b.x == rect.left && b.y == rect.top
            &&& measures(b.width, rect.left, rect.right)
            &&& measures(b.height, rect.top, rect.bottom)
        }),
{
    lemma_difference_nearest(rect.right, rect.left);
    lemma_difference_nearest(rect.bottom, rect.top);
}

/// An image that is smaller than `min_size` in one direction is left out.
pub proof fn lemma_small_image_goes(
    image: ImageBounds,
    page_width: Scalar,
    page_height: Scalar,
    min_size: Scalar,
    max_coverage: Scalar,
)
    requires
        image.width.finite() && image.height.finite() && min_size.finite(),
        image.width.value() < min_size.value() || image.height.value() < min_size.value(),
    ensures
        !image.relevant(page_width, page_height, min_size, max_coverage),
{
    lemma_order_by_value(min_size, image.width);
    lemma_order_by_value(min_size, image.height);
}

/// An image that is large enough stays where it covers, exactly, at most the given share of the
/// page in one direction.
pub proof fn lemma_partial_image_stays(
    image: ImageBounds,
    page_width: Scalar,
    page_height: Scalar,
    min_size: Scalar,
    max_coverage: Scalar,
)
    requires
        image.width.finite() && image.height.finite() && min_size.finite(),
        page_width.finite() && page_height.finite() && max_coverage.finite(),
        !page_width.negative() && !page_height.negative() && !max_coverage.negative(),
        min_size.value() <= image.width.value() && min_size.value() <= image.height.value(),
        image.width.value() * one() <= page_width.value() * max_coverage.value()
            || image.height.value() * one() <= page_height.value() * max_coverage.value(),
    ensures
        image.relevant(page_width, page_height, min_size, max_coverage),
{
    lemma_order_by_value(min_size, image.width);
    lemma_order_by_value(min_size, image.height);
    if image.width.value() * one() <= page_width.value() * max_coverage.value() {
        lemma_product_at_least(page_width, max_coverage, image.width);
    } else {
        lemma_product_at_least(page_height, max_coverage, image.height);
    }
}

/// An image that covers more than the given share of a page in both directions, by some numbers
/// that it exceeds, is left out.
pub proof fn lemma_background_goes(
    image: ImageBounds,
    page_width: Scalar,
    page_height: Scalar,
    min_size: Scalar,
    max_coverage: Scalar,
    width: Scalar,
    height: Scalar,
)
    requires
        image.width.finite() && image.height.finite() && width.finite() && height.finite(),
        page_width.finite() && page_height.finite() && max_coverage.finite(),
        signed(false, 0).less(page_width.product(page_height)),
        !page_width.negative() && !page_height.negative(),
        !max_coverage.negative() && !width.negative() && !height.negative(),
        page_width.value() * max_coverage.value() <= width.value() * one(),
        page_height.value() * max_coverage.value() <= height.value() * one(),
        width.value() < image.width.value() && height.value() < image.height.value(),
    ensures
        !image.relevant(page_width, page_height, min_size, max_coverage),
{
    lemma_product_at_most(page_width, max_coverage, width);
    lemma_product_at_most(page_height, max_coverage, height);
    lemma_order_by_value(width, image.width);
    lemma_order_by_value(height, image.height);
}

/// The images that are kept are relevant, and every relevant one is kept.
pub proof fn lemma_relevant_images(
    images: Seq<ImageBounds>,
    page_width: Scalar,
    page_height: Scalar,
    min_size: Scalar,
    max_coverage: Scalar,
)
    ensures
        ({
            let kept = relevant_images(images, page_width, page_height, min_size, max_coverage);
            &&& forall|k: int|
                0 <= k < kept.len() ==> (#[trigger] kept[k]).relevant(
                    page_width,
                    page_height,
                    min_size,
                    max_coverage,
                )
            &&& forall|i: int|
                0 <= i < images.len() && (#[trigger] images[i]).relevant(
                    page_width,
                    page_height,
                    min_size,
                    max_coverage,
                ) ==> kept.contains(images[i])
        }),
{
    let keep = |b: ImageBounds| b.relevant(page_width, page_height, min_size, max_coverage);
    let kept = relevant_images(images, page_width, page_height, min_size, max_coverage);
    assert forall|k: int| 0 <= k < kept.len() implies (#[trigger] kept[k]).relevant(
        page_width,
        page_height,
        min_size,
        max_coverage,
    ) by {
        images.lemma_filter_pred(keep, k);
    }
    assert forall|i: int|
        0 <= i < images.len() && (#[trigger] images[i]).relevant(
            page_width,
            page_height,
            min_size,
            max_coverage,
        ) implies kept.contains(images[i]) by {
        images.lemma_filter_contains(keep, i);
    }
}

/// On a page without an area, every image that is large enough stays.
pub proof fn lemma_no_page_area(
    image: ImageBounds,
    page_width: Scalar,
    page_height: Scalar,
    min_size: Scalar,
    max_coverage: Scalar,
)
    requires
        page_width.product(page_height).at_most(signed(false, 0)),
        min_size.finite() && image.width.finite() && image.height.finite(),
        min_size.value() <= image.width.value() && min_size.value() <= image.height.value(),
    ensures
        image.relevant(page_width, page_height, min_size, max_coverage),
{
    lemma_order_by_value(min_size, image.width);
    lemma_order_by_value(min_size, image.height);
}

} // verus!
