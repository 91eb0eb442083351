//! The module with the crate's default drawer.
//!
//! The drawer renders an embedding into a self-contained SVG document:
//! one `text` element per node, one `line` element per non-root node
//! connecting it to its parent, on a white background rectangle.  The
//! exact text of the document is specified by [`svg_doc`], so that what
//! the drawer emits can be reasoned about character by character.
//!
//! Abstract layout units are converted to pixel coordinates with fixed
//! font metric constants: ten horizontal pixels per unit with a margin of
//! ten, thirty-five vertical pixels per level with a margin of
//! twenty-five, and a font size of ten.

use vstd::prelude::*;

use crate::drawer::Drawer;
use crate::embedder::{
    find_ord, has_ord, items_view, lemma_find_ord_from, parents_resolvable, PlacedItemView,
    PlacedTreeItem,
};
use crate::model::int_max;
use crate::svg_text::{dec_int, escape_into, escaped, fmt_i128, fmt_u128};

verus! {

/// Horizontal pixel position of a layout unit position.
pub open spec fn scale_x_spec(x: int) -> int {
    10 * x + 10
}

/// Vertical pixel position of a level.
pub open spec fn scale_y_spec(y: int) -> int {
    35 * y + 25
}

/// One `text` element of the rendered document.
#[verifier::ext_equal]
pub ghost struct SvgTextView {
    /// The pixel x coordinate of the left edge of the label.
    pub x: int,
    /// The pixel y coordinate of the text baseline.
    pub y: int,
    /// Whether the label is set in bold.
    pub bold: bool,
    /// The label text (before XML escaping).
    pub label: Seq<char>,
}

/// One `line` element of the rendered document.
#[verifier::ext_equal]
pub ghost struct SvgLineView {
    /// The pixel x coordinate of the upper end, at the parent.
    pub x1: int,
    /// The pixel y coordinate of the upper end, below the parent's label.
    pub y1: int,
    /// The pixel x coordinate of the lower end, at the child.
    pub x2: int,
    /// The pixel y coordinate of the lower end, above the child's label.
    pub y2: int,
}

/// The `text` element that one placed item is rendered to: the label is
/// centered at the item's scaled center, so its left edge sits half the
/// measured label width further left.
pub open spec fn text_elem_of(it: PlacedItemView) -> SvgTextView {
    SvgTextView {
        x: scale_x_spec(it.x_center) - 5 * it.text.len(),
        y: scale_y_spec(it.y_order),
        bold: it.is_emphasized,
        label: it.text,
    }
}

/// The `line` element connecting an item to its parent's item: it runs
/// from one font height below the parent's baseline to one font height
/// above the child's baseline.
pub open spec fn line_elem_of(parent: PlacedItemView, it: PlacedItemView) -> SvgLineView {
    SvgLineView {
        x1: scale_x_spec(parent.x_center),
        y1: scale_y_spec(parent.y_order) + 10,
        x2: scale_x_spec(it.x_center),
        y2: scale_y_spec(it.y_order) - 10,
    }
}

/// The largest level among the first `k` items.
pub open spec fn max_level(e: Seq<PlacedItemView>, k: int) -> int
    decreases k,
{
    if k <= 0 {
        0
    } else {
        int_max(max_level(e, k - 1), e[k - 1].y_order)
    }
}

/// The largest subtree extent among the first `k` items.
pub open spec fn max_extent(e: Seq<PlacedItemView>, k: int) -> int
    decreases k,
{
    if k <= 0 {
        0
    } else {
        int_max(max_extent(e, k - 1), e[k - 1].x_extent_children)
    }
}

/// The text of one `text` element.
pub open spec fn text_elem_chars(tv: SvgTextView) -> Seq<char> {
    "\n  <text x=\""@ + dec_int(tv.x) + "\" y=\""@ + dec_int(tv.y) + "\" style=\""@ + (if tv.bold {
        "font-family: 'Courier'; font-weight: bold; font-style: normal"@
    } else {
        "font-family: 'Courier'; font-style: normal"@
    }) + "\">"@ + escaped(tv.label) + "</text>"@
}

/// The text of one `line` element.
pub open spec fn line_elem_chars(lv: SvgLineView) -> Seq<char> {
    "\n  <line x1=\""@ + dec_int(lv.x1) + "\" y1=\""@ + dec_int(lv.y1) + "\" x2=\""@ + dec_int(
        lv.x2,
    ) + "\" y2=\""@ + dec_int(lv.y2) + "\" stroke=\"black\"></line>"@
}

/// The text that item `k` contributes to the document: its `text` element
/// and, unless it is a root, the `line` element to its parent — the first
/// item whose `ord` equals the parent reference.
pub open spec fn item_chars(e: Seq<PlacedItemView>, k: int) -> Seq<char> {
    text_elem_chars(text_elem_of(e[k])) + (match e[k].parent {
        None => Seq::<char>::empty(),
        Some(po) => line_elem_chars(line_elem_of(e[find_ord(e, po)], e[k])),
    })
}

/// The concatenated element texts of the first `k` items.
pub open spec fn body_chars(e: Seq<PlacedItemView>, k: int) -> Seq<char>
    decreases k,
{
    if k <= 0 {
        Seq::<char>::empty()
    } else {
        body_chars(e, k - 1) + item_chars(e, k - 1)
    }
}

/// The document prologue: XML declaration, the `svg` root element with
/// the computed canvas size, and the white background rectangle.
pub open spec fn header_chars(w: int, h: int) -> Seq<char> {
    "<?xml version=\"1.0\" encoding=\"UTF-8\" ?>\n<svg xmlns=\"http://www.w3.org/2000/svg\" version=\"1.1\" lang=\"en\" width=\""@
        + dec_int(w) + "\" height=\""@ + dec_int(h) + "\">\n  <rect x=\"0\" y=\"0\" width=\""@
        + dec_int(w) + "\" height=\""@ + dec_int(h) + "\" fill=\"white\"></rect>"@
}

/// The complete SVG document for an embedding: the canvas is sized from
/// the largest level and the largest subtree extent of the items.
pub open spec fn svg_doc(e: Seq<PlacedItemView>) -> Seq<char> {
    header_chars(
        scale_x_spec(max_extent(e, e.len() as int)),
        scale_y_spec(max_level(e, e.len() as int) + 1),
    ) + body_chars(e, e.len() as int) + "</svg>"@
}

/// The `SvgDrawer` type transforms an embedding into the SVG format.
#[derive(Debug)]
pub struct SvgDrawer;

impl SvgDrawer {
    /// Creates a fresh instance of the `SvgDrawer` type.
    pub fn new() -> (r: Self) {
        Self
    }
}

impl Drawer for SvgDrawer {
    /// Renders the embedding as an SVG document whose text is exactly
    /// [`svg_doc`] of the embedding.
    fn draw(&self, embedding: &[PlacedTreeItem]) -> (r: crate::drawer::Result)
        ensures
            r is Ok,
            r->Ok_0@ == svg_doc(items_view(embedding@)),
    {
        let ghost ev = items_view(embedding@);
        let n = embedding.len();
        let mut depth: usize = 0;
        let mut width: usize = 0;
        let mut k: usize = 0;
        while k < n
            invariant
                n == ev.len(),
                ev == items_view(embedding@),
                0 <= k <= n,
                depth as int == max_level(ev, k as int),
                width as int == max_extent(ev, k as int),
            decreases n - k,
        {
            let it = &embedding[k];
            if it.y_order > depth {
                depth = it.y_order;
            }
            if it.x_extent_children > width {
                width = it.x_extent_children;
            }
            k = k + 1;
        }
        let w: u128 = 10 * (width as u128) + 10;
        let h: u128 = 35 * ((depth as u128) + 1) + 25;
        let ws = fmt_u128(w);
        let hs = fmt_u128(h);
        let mut out = String::new();
        out.append(
            "<?xml version=\"1.0\" encoding=\"UTF-8\" ?>\n<svg xmlns=\"http://www.w3.org/2000/svg\" version=\"1.1\" lang=\"en\" width=\"",
        );
        out.append(ws.as_str());
        out.append("\" height=\"");
        out.append(hs.as_str());
        out.append("\">\n  <rect x=\"0\" y=\"0\" width=\"");
        out.append(ws.as_str());
        out.append("\" height=\"");
        out.append(hs.as_str());
        out.append("\" fill=\"white\"></rect>");
        let ghost header = header_chars(
            scale_x_spec(max_extent(ev, ev.len() as int)),
            scale_y_spec(max_level(ev, ev.len() as int) + 1),
        );
        proof {
            assert(out@ =~= header);
        }
        let mut k: usize = 0;
        while k < n
            invariant
                n == ev.len(),
                ev == items_view(embedding@),
                parents_resolvable(ev),
                0 <= k <= n,
                out@ == header + body_chars(ev, k as int),
            decreases n - k,
        {
            let ghost out_before = out@;
            let it = &embedding[k];
            let len = it.text.as_str().unicode_len();
            let x: i128 = 10 * (it.x_center as i128) + 10 - 5 * (len as i128);
            let y: u128 = 35 * (it.y_order as u128) + 25;
            out.append("\n  <text x=\"");
            out.append(fmt_i128(x).as_str());
            out.append("\" y=\"");
            out.append(fmt_u128(y).as_str());
            out.append("\" style=\"");
            if it.is_emphasized {
                out.append("font-family: 'Courier'; font-weight: bold; font-style: normal");
            } else {
                out.append("font-family: 'Courier'; font-style: normal");
            }
            out.append("\">");
            escape_into(&mut out, it.text.as_str());
            out.append("</text>");
            proof {
                assert(out@ =~= out_before + text_elem_chars(text_elem_of(ev[k as int])));
            }
            match &it.parent {
                None => {
                    proof {
                        assert(out@ =~= header + body_chars(ev, k as int + 1));
                    }
                },
                Some(po_ref) => {
                    let po = *po_ref;
                    proof {
                        assert(ev[k as int].parent == Some(po as int));
                        assert(has_ord(ev, po as int));
                        lemma_find_ord_from(ev, po as int, 0);
                    }
                    let mut j: usize = 0;
                    while j < n && embedding[j].ord != po
                        invariant
                            n == ev.len(),
                            ev == items_view(embedding@),
                            0 <= j <= n,
                            forall|j2: int| 0 <= j2 < j ==> (#[trigger] ev[j2]).ord != po as int,
                        decreases n - j,
                    {
                        j = j + 1;
                    }
                    proof {
                        assert(j < n) by {
                            if j == n {
                                assert(has_ord(ev, po as int));
                                let jw = choose|jw: int|
                                    0 <= jw < ev.len() && (#[trigger] ev[jw]).ord == po as int;
                                assert(ev[jw].ord != po as int);
                            }
                        }
                        assert(ev[j as int].ord == po as int);
                        assert(j as int == find_ord(ev, po as int)) by {
                            lemma_find_ord_from(ev, po as int, 0);
                            let f = find_ord(ev, po as int);
                            if f < j {
                                assert(ev[f].ord != po as int);
                            }
                        }
                    }
                    let pit = &embedding[j];
                    let x1: u128 = 10 * (pit.x_center as u128) + 10;
                    let y1: u128 = 35 * (pit.y_order as u128) + 25 + 10;
                    let x2: u128 = 10 * (it.x_center as u128) + 10;
                    let y2: u128 = 35 * (it.y_order as u128) + 25 - 10;
                    out.append("\n  <line x1=\"");
                    out.append(fmt_u128(x1).as_str());
                    out.append("\" y1=\"");
                    out.append(fmt_u128(y1).as_str());
                    out.append("\" x2=\"");
                    out.append(fmt_u128(x2).as_str());
                    out.append("\" y2=\"");
                    out.append(fmt_u128(y2).as_str());
                    out.append("\" stroke=\"black\"></line>");
                    proof {
                        assert(out@ =~= out_before + item_chars(ev, k as int));
                        assert(out@ =~= header + body_chars(ev, k as int + 1));
                    }
                },
            }
            k = k + 1;
        }
        out.append("</svg>");
        proof {
            assert(out@ =~= svg_doc(ev));
        }
        Ok(out)
    }
}

} // verus!
