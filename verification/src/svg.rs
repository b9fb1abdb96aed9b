//! The inline SVG markup of a resolved icon.
//!
//! Numbers reach this module already written out as text: the width and height
//! of the view box, and the center that flips and turns go around.
use vstd::prelude::*;
use crate::collection::ResolvedIcon;
use crate::text::{push_str, starts_with};

verus! {

/// Sizes of an icon, written out: the view box's width and height and the
/// coordinates of its center.
pub struct SvgSize {
    pub width: String,
    pub height: String,
    pub center_x: String,
    pub center_y: String,
}

/// How a scale factor is written: `-1` mirrors, `1` keeps.
pub open spec fn scale_text(flip: bool) -> Seq<char> {
    if flip {
        "-1"@
    } else {
        "1"@
    }
}

/// The angle of `rotate` quarter turns, in degrees, written out.
pub open spec fn degrees_text(rotate: u8) -> Seq<char> {
    if rotate % 4 == 0 {
        "0"@
    } else if rotate % 4 == 1 {
        "90"@
    } else if rotate % 4 == 2 {
        "180"@
    } else {
        "270"@
    }
}

/// The transform that mirrors around the center.
pub open spec fn flip_transform(h_flip: bool, v_flip: bool, cx: Seq<char>, cy: Seq<char>) -> Seq<
    char,
> {
    "translate("@ + cx + " "@ + cy + ")"@ + " scale("@ + scale_text(h_flip) + " "@ + scale_text(
        v_flip,
    ) + ") "@ + "translate(-"@ + cx + " -"@ + cy + ")"@
}

/// The transform that turns around the center.
pub open spec fn rotate_transform(rotate: u8, cx: Seq<char>, cy: Seq<char>) -> Seq<char> {
    "rotate("@ + degrees_text(rotate) + " "@ + cx + " "@ + cy + ")"@
}

/// The `transform` attribute for an icon: none when it neither turns nor
/// flips; otherwise the flip, then the turn, separated by a space.
pub open spec fn transform_text(
    rotate: u8,
    h_flip: bool,
    v_flip: bool,
    cx: Seq<char>,
    cy: Seq<char>,
) -> Option<Seq<char>> {
    if rotate == 0 && !h_flip && !v_flip {
        None
    } else if h_flip || v_flip {
        if rotate != 0 {
            Some(flip_transform(h_flip, v_flip, cx, cy) + " "@ + rotate_transform(rotate, cx, cy))
        } else {
            Some(flip_transform(h_flip, v_flip, cx, cy))
        }
    } else {
        Some(rotate_transform(rotate, cx, cy))
    }
}

/// The opening of every icon's `<svg>` element, up to its view box.
pub open spec fn svg_head(width: Seq<char>, height: Seq<char>) -> Seq<char> {
    "<svg xmlns=\"http://www.w3.org/2000/svg\" width=\"1em\" height=\"1em\" "@ + "viewBox=\"0 0 "@
        + width + " "@ + height + "\""@
        + " role=\"img\" aria-hidden=\"true\" style=\"vertical-align: -0.125em; display: inline-block;\""@
}

/// The whole markup of an icon.
pub open spec fn svg_text(
    body: Seq<char>,
    size: (Seq<char>, Seq<char>, Seq<char>, Seq<char>),
    rotate: u8,
    h_flip: bool,
    v_flip: bool,
) -> Seq<char> {
    let (w, h, cx, cy) = size;
    match transform_text(rotate, h_flip, v_flip, cx, cy) {
        None => svg_head(w, h) + ">"@ + body + "</svg>"@,
        Some(t) => svg_head(w, h) + "><g transform=\""@ + t + "\">"@ + body + "</g></svg>"@,
    }
}

/// The size texts, as a tuple.
pub open spec fn size_texts(size: SvgSize) -> (Seq<char>, Seq<char>, Seq<char>, Seq<char>) {
    (size.width@, size.height@, size.center_x@, size.center_y@)
}

fn push_flip(out: &mut String, h_flip: bool, v_flip: bool, cx: &str, cy: &str)
    ensures
        final(out)@ == old(out)@ + flip_transform(h_flip, v_flip, cx@, cy@),
{
    push_str(out, "translate(");
    push_str(out, cx);
    push_str(out, " ");
    push_str(out, cy);
    push_str(out, ")");
    push_str(out, " scale(");
    push_str(out, if h_flip { "-1" } else { "1" });
    push_str(out, " ");
    push_str(out, if v_flip { "-1" } else { "1" });
    push_str(out, ") ");
    push_str(out, "translate(-");
    push_str(out, cx);
    push_str(out, " -");
    push_str(out, cy);
    push_str(out, ")");
    assert(out@ =~= old(out)@ + flip_transform(h_flip, v_flip, cx@, cy@));
}

fn push_rotate(out: &mut String, rotate: u8, cx: &str, cy: &str)
    ensures
        final(out)@ == old(out)@ + rotate_transform(rotate, cx@, cy@),
{
    push_str(out, "rotate(");
    let q = rotate % 4;
    if q == 0 {
        push_str(out, "0");
    } else if q == 1 {
        push_str(out, "90");
    } else if q == 2 {
        push_str(out, "180");
    } else {
        push_str(out, "270");
    }
    push_str(out, " ");
    push_str(out, cx);
    push_str(out, " ");
    push_str(out, cy);
    push_str(out, ")");
    assert(out@ =~= old(out)@ + rotate_transform(rotate, cx@, cy@));
}

/// The SVG `transform` that applies an icon's flips and quarter turns around
/// its center (`cx`, `cy`), or `None` when it neither turns nor flips.
pub fn icon_transform(rotate: u8, h_flip: bool, v_flip: bool, cx: &str, cy: &str) -> (r: Option<
    String,
>)
    ensures
        r matches Some(t) ==> transform_text(rotate, h_flip, v_flip, cx@, cy@) == Some(t@),
        r is None ==> transform_text(rotate, h_flip, v_flip, cx@, cy@) is None,
{
    if rotate == 0 && !h_flip && !v_flip {
        return None;
    }
    let mut t = String::new();
    if h_flip || v_flip {
        push_flip(&mut t, h_flip, v_flip, cx, cy);
    }
    if rotate != 0 {
        if h_flip || v_flip {
            push_str(&mut t, " ");
        }
        push_rotate(&mut t, rotate, cx, cy);
    }
    assert(Some(t@) == transform_text(rotate, h_flip, v_flip, cx@, cy@)) by {
        assert(Seq::<char>::empty() + flip_transform(h_flip, v_flip, cx@, cy@) =~= flip_transform(
            h_flip,
            v_flip,
            cx@,
            cy@,
        ));
        assert(Seq::<char>::empty() + rotate_transform(rotate, cx@, cy@) =~= rotate_transform(
            rotate,
            cx@,
            cy@,
        ));
    }
    Some(t)
}

impl<D> ResolvedIcon<D> {
    /// The inline `<svg>` element of the icon, one `em` wide and high, with its
    /// body inside a `<g>` that carries the transform when there is one.
    pub fn to_svg(&self, size: &SvgSize) -> (svg: String)
        ensures
            svg@ == svg_text(
                self.body@,
                size_texts(*size),
                self.rotate,
                self.h_flip,
                self.v_flip,
            ),
    {
        let transform = icon_transform(
            self.rotate,
            self.h_flip,
            self.v_flip,
            size.center_x.as_str(),
            size.center_y.as_str(),
        );
        let mut svg = String::new();
        push_str(
            &mut svg,
            "<svg xmlns=\"http://www.w3.org/2000/svg\" width=\"1em\" height=\"1em\" ",
        );
        push_str(&mut svg, "viewBox=\"0 0 ");
        push_str(&mut svg, size.width.as_str());
        push_str(&mut svg, " ");
        push_str(&mut svg, size.height.as_str());
        push_str(&mut svg, "\"");
        push_str(
            &mut svg,
            " role=\"img\" aria-hidden=\"true\" style=\"vertical-align: -0.125em; display: inline-block;\"",
        );
        match transform {
            None => {
                push_str(&mut svg, ">");
                push_str(&mut svg, self.body.as_str());
                push_str(&mut svg, "</svg>");
            },
            Some(t) => {
                push_str(&mut svg, "><g transform=\"");
                push_str(&mut svg, t.as_str());
                push_str(&mut svg, "\">");
                push_str(&mut svg, self.body.as_str());
                push_str(&mut svg, "</g></svg>");
            },
        }
        assert(svg@ =~= svg_text(
            self.body@,
            size_texts(*size),
            self.rotate,
            self.h_flip,
            self.v_flip,
        ));
        svg
    }
}

/// An icon's markup opens with the `<svg>` tag's fixed attributes followed by
/// its view box, whose numbers are `0 0`, then the width, then the height:
/// whatever the body, the sizes, the turn and the flips.
pub proof fn lemma_view_box_width_then_height(
    body: Seq<char>,
    size: (Seq<char>, Seq<char>, Seq<char>, Seq<char>),
    rotate: u8,
    h_flip: bool,
    v_flip: bool,
)
    ensures
        starts_with(
            svg_text(body, size, rotate, h_flip, v_flip),
            "<svg xmlns=\"http://www.w3.org/2000/svg\" width=\"1em\" height=\"1em\" "@
                + "viewBox=\"0 0 "@ + size.0 + " "@ + size.1 + "\""@,
        ),
{
    let opening = "<svg xmlns=\"http://www.w3.org/2000/svg\" width=\"1em\" height=\"1em\" "@
        + "viewBox=\"0 0 "@ + size.0 + " "@ + size.1 + "\""@;
    let whole = svg_text(body, size, rotate, h_flip, v_flip);
    let rest = whole.skip(svg_head(size.0, size.1).len() as int);
    assert(svg_head(size.0, size.1) =~= opening
        + " role=\"img\" aria-hidden=\"true\" style=\"vertical-align: -0.125em; display: inline-block;\""@);
    assert(whole.take(opening.len() as int) =~= opening);
}

/// A flip mirrors the icon around its center (`cx`, `cy`): its transform
/// begins by moving the origin to `cx cy` and ends by moving it back by
/// `-cx -cy`, the horizontal coordinate first in both.
pub proof fn lemma_flip_around_center(h_flip: bool, v_flip: bool, cx: Seq<char>, cy: Seq<char>)
    ensures
        starts_with(flip_transform(h_flip, v_flip, cx, cy), "translate("@ + cx + " "@ + cy + ")"@),
        ("translate(-"@ + cx + " -"@ + cy + ")"@).is_suffix_of(
            flip_transform(h_flip, v_flip, cx, cy),
        ),
{
    let t = flip_transform(h_flip, v_flip, cx, cy);
    let head = "translate("@ + cx + " "@ + cy + ")"@;
    let tail = "translate(-"@ + cx + " -"@ + cy + ")"@;
    let mid = " scale("@ + scale_text(h_flip) + " "@ + scale_text(v_flip) + ") "@;
    assert(t =~= head + mid + tail);
    assert(t.take(head.len() as int) =~= head);
    assert(t.subrange(t.len() - tail.len(), t.len() as int) =~= tail);
}

/// Whenever an icon is flipped, its transform begins with the move to its
/// center `cx cy`; when it is also turned, it ends with the turn around that
/// same center, and otherwise with the move back by `-cx -cy`.
pub proof fn lemma_flipped_transform_centered(
    rotate: u8,
    h_flip: bool,
    v_flip: bool,
    cx: Seq<char>,
    cy: Seq<char>,
)
    requires
        h_flip || v_flip,
    ensures
        transform_text(rotate, h_flip, v_flip, cx, cy) matches Some(t) && starts_with(
            t,
            "translate("@ + cx + " "@ + cy + ")"@,
        ) && (rotate == 0 ==> ("translate(-"@ + cx + " -"@ + cy + ")"@).is_suffix_of(t)) && (
        rotate != 0 ==> ("rotate("@ + degrees_text(rotate) + " "@ + cx + " "@ + cy
            + ")"@).is_suffix_of(t)),
{
    lemma_flip_around_center(h_flip, v_flip, cx, cy);
    let f = flip_transform(h_flip, v_flip, cx, cy);
    let head = "translate("@ + cx + " "@ + cy + ")"@;
    if rotate != 0 {
        let t = f + " "@ + rotate_transform(rotate, cx, cy);
        let r = rotate_transform(rotate, cx, cy);
        assert(t.take(head.len() as int) =~= f.take(head.len() as int));
        assert(t.subrange(t.len() - r.len(), t.len() as int) =~= r);
    }
}

} // verus!
