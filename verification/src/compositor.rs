//! The compositor: paints the redraw set into the screen buffer in depth
//! order with transparency, and diffs the result against the previous
//! contents so only changed cells reach the terminal.

use vstd::prelude::*;

use crate::entity::PlacedEntity;
use crate::entity::Visibility;
use crate::entity::spec_bbox;
use crate::rect::Rect;
use crate::resolver::in_list;
use crate::screen::Cell;
use crate::screen::ScreenBuffer;
use crate::screen::spec_blank_cell;
use crate::screen::lemma_grid_index_bounds;
use crate::sprite::Sprite;
use crate::sprite::StyleMap;
use crate::sprite::blank_glyph;
use crate::style::Colors;

verus! {

/// The entity paints the cell at `(x, y)`: the cell lies in its bounding
/// box, and either the entity is opaque or its glyph there is not blank.
pub open spec fn covers(e: PlacedEntity, sp: Sprite, x: int, y: int) -> bool {
    &&& spec_bbox(e.position, sp.width as int, sp.height as int).contains(x, y)
    &&& (e.visibility == Visibility::Opaque || sp.glyph_at(
        y - e.position.y,
        x - e.position.x,
    ) != blank_glyph())
}

/// The cell the entity paints at screen position `(x, y)`.
pub open spec fn painted_cell(
    e: PlacedEntity,
    sp: Sprite,
    st: StyleMap,
    x: int,
    y: int,
) -> Cell {
    Cell {
        glyph: sp.glyph_at(y - e.position.y, x - e.position.x),
        style: st.style_at(y - e.position.y, x - e.position.x),
    }
}

/// One queued terminal write: the cell at `(x, y)` now shows `cell`.
#[derive(Clone, Copy, PartialEq, Eq, Structural, Debug)]
pub struct CellWrite {
    pub x: u16,
    pub y: u16,
    pub cell: Cell,
}

/// A per-entity content error surfaced by a compositing pass.
#[derive(Clone, Copy, PartialEq, Eq, Structural, Debug)]
pub enum RenderError {
    /// The entity's style grid does not match its glyph buffer's
    /// dimensions; the entity was skipped for this frame.
    ShapeMismatch { id: u64 },
}

/// Paints one entity into the screen buffer: every covered cell takes the
/// entity's glyph and style; every other cell is untouched.  A transparent
/// entity with an all-blank glyph buffer covers nothing and so changes
/// nothing.
pub fn paint_entity(screen: &mut ScreenBuffer, e: &PlacedEntity, sp: &Sprite, st: &StyleMap)
    requires
        old(screen).wf(),
        sp.wf(),
        st.matches_dims(*sp),
    ensures
        final(screen).wf(),
        final(screen).width == old(screen).width,
        final(screen).height == old(screen).height,
        final(screen).colors == old(screen).colors,
        forall|x: int, y: int|
            final(screen).in_bounds(x, y) && covers(*e, *sp, x, y) ==> final(screen).at(x, y)
                == painted_cell(*e, *sp, *st, x, y),
        forall|x: int, y: int|
            final(screen).in_bounds(x, y) && !covers(*e, *sp, x, y) ==> final(screen).at(x, y)
                == old(screen).at(x, y),
        (e.visibility == Visibility::Transparent && sp.all_blank()) ==> same_screen(
            *final(screen),
            *old(screen),
        ),
{
    let ghost orig = *screen;
    let px: i64 = e.position.x as i64;
    let py: i64 = e.position.y as i64;
    let xlo: i64 = if px > 0 { px } else { 0 };
    let xhi_raw: i64 = px + sp.width as i64;
    let xhi: i64 = if xhi_raw < screen.width as i64 { xhi_raw } else { screen.width as i64 };
    let ylo: i64 = if py > 0 { py } else { 0 };
    let yhi_raw: i64 = py + sp.height as i64;
    let yhi: i64 = if yhi_raw < screen.height as i64 { yhi_raw } else { screen.height as i64 };
    if xlo >= xhi || ylo >= yhi {
        proof {
            assert forall|x: int, y: int|
                screen.in_bounds(x, y) implies !covers(*e, *sp, x, y) by {}
            assert(same_screen(*screen, orig));
        }
        return;
    }
    let mut y: i64 = ylo;
    while y < yhi
        invariant
            ylo <= y <= yhi,
            0 <= xlo < xhi <= screen.width as int,
            0 <= ylo < yhi <= screen.height as int,
            px <= xlo,
            xlo == px || xlo == 0,
            xhi <= px + sp.width as int,
            xhi <= screen.width as int,
            xhi == px + sp.width as int || xhi == screen.width as int,
            py <= ylo,
            ylo == py || ylo == 0,
            yhi <= py + sp.height as int,
            yhi <= screen.height as int,
            yhi == py + sp.height as int || yhi == screen.height as int,
            px == e.position.x as int,
            py == e.position.y as int,
            sp.wf(),
            st.matches_dims(*sp),
            forall|cx: int, cy: int|
                screen.in_bounds(cx, cy) && spec_bbox(
                    e.position,
                    sp.width as int,
                    sp.height as int,
                ).contains(cx, cy) ==> xlo <= cx < xhi && ylo <= cy < yhi,
            screen.wf(),
            screen.width == orig.width,
            screen.height == orig.height,
            screen.colors == orig.colors,
            forall|cx: int, cy: int|
                screen.in_bounds(cx, cy) && covers(*e, *sp, cx, cy) && cy < y ==> screen.at(
                    cx,
                    cy,
                ) == painted_cell(*e, *sp, *st, cx, cy),
            forall|cx: int, cy: int|
                screen.in_bounds(cx, cy) && !(covers(*e, *sp, cx, cy) && cy < y) ==> screen.at(
                    cx,
                    cy,
                ) == orig.at(cx, cy),
        decreases yhi - y,
    {
        let rel_r: usize = (y - py) as usize;
        let mut x: i64 = xlo;
        while x < xhi
            invariant
                xlo <= x <= xhi,
                ylo <= y < yhi,
                0 <= xlo < xhi <= screen.width as int,
                0 <= ylo < yhi <= screen.height as int,
                px <= xlo,
                xlo == px || xlo == 0,
                xhi <= px + sp.width as int,
                xhi <= screen.width as int,
                xhi == px + sp.width as int || xhi == screen.width as int,
                py <= ylo,
                ylo == py || ylo == 0,
                yhi <= py + sp.height as int,
                yhi <= screen.height as int,
                yhi == py + sp.height as int || yhi == screen.height as int,
                px == e.position.x as int,
                py == e.position.y as int,
                rel_r as int == y - py,
                sp.wf(),
                st.matches_dims(*sp),
                forall|cx: int, cy: int|
                    screen.in_bounds(cx, cy) && spec_bbox(
                        e.position,
                        sp.width as int,
                        sp.height as int,
                    ).contains(cx, cy) ==> xlo <= cx < xhi && ylo <= cy < yhi,
                screen.wf(),
                screen.width == orig.width,
                screen.height == orig.height,
                screen.colors == orig.colors,
                forall|cx: int, cy: int|
                    screen.in_bounds(cx, cy) && covers(*e, *sp, cx, cy) && (cy < y || (cy == y
                        && cx < x)) ==> screen.at(cx, cy) == painted_cell(*e, *sp, *st, cx, cy),
                forall|cx: int, cy: int|
                    screen.in_bounds(cx, cy) && !(covers(*e, *sp, cx, cy) && (cy < y || (cy == y
                        && cx < x))) ==> screen.at(cx, cy) == orig.at(cx, cy),
            decreases xhi - x,
        {
            let rel_c: usize = (x - px) as usize;
            let row: &Vec<char> = &sp.rows[rel_r];
            let glyph: char = if rel_c < row.len() {
                row[rel_c]
            } else {
                ' '
            };
            proof {
                assert(glyph == sp.glyph_at(y - py, x - px));
            }
            let opaque = match e.visibility {
                Visibility::Opaque => true,
                Visibility::Transparent => false,
            };
            if opaque || glyph != ' ' {
                let style = st.rows[rel_r][rel_c];
                proof {
                    assert(style == st.style_at(y - py, x - px));
                    assert(covers(*e, *sp, x as int, y as int));
                }
                screen.set_cell(x as usize, y as usize, Cell { glyph, style });
            } else {
                proof {
                    assert(!covers(*e, *sp, x as int, y as int));
                }
            }
            x += 1;
        }
        y += 1;
    }
    proof {
        if e.visibility == Visibility::Transparent && sp.all_blank() {
            assert forall|x2: int, y2: int|
                screen.in_bounds(x2, y2) implies screen.at(x2, y2) == orig.at(x2, y2) by {
                assert(sp.glyph_at(y2 - e.position.y, x2 - e.position.x) == blank_glyph());
                assert(!covers(*e, *sp, x2, y2));
            }
            lemma_screen_eq(*screen, orig);
        }
    }
}

/// A transparent entity whose glyph buffer is entirely blank covers no
/// cell at all, whatever its placement or depth: compositing it leaves the
/// screen buffer untouched.
pub proof fn lemma_transparent_blank_covers_nothing(
    e: PlacedEntity,
    sp: Sprite,
    x: int,
    y: int,
)
    requires
        e.visibility == Visibility::Transparent,
        sp.all_blank(),
    ensures
        !covers(e, sp, x, y),
{
    assert(sp.glyph_at(y - e.position.y, x - e.position.x) == blank_glyph());
}

/// Two screens show the very same picture: same dimensions, same window
/// colors, and the same stored cells.
pub open spec fn same_screen(a: ScreenBuffer, b: ScreenBuffer) -> bool {
    a.width == b.width && a.height == b.height && a.colors == b.colors && a.cells@ == b.cells@
}

/// Two screens with the same dimensions, the same colors and the same cell
/// at every coordinate are the same screen.
pub proof fn lemma_screen_eq(a: ScreenBuffer, b: ScreenBuffer)
    requires
        a.wf(),
        b.wf(),
        a.width == b.width,
        a.height == b.height,
        a.colors == b.colors,
        forall|x: int, y: int| a.in_bounds(x, y) ==> a.at(x, y) == b.at(x, y),
    ensures
        same_screen(a, b),
{
    assert forall|i: int| 0 <= i < a.cells@.len() implies a.cells@[i] == b.cells@[i] by {
        lemma_index_decompose(a.width as int, a.height as int, i);
        let yy = i / (a.width as int);
        let xx = i % (a.width as int);
        assert(a.in_bounds(xx, yy));
        assert(a.at(xx, yy) == b.at(xx, yy));
    }
    assert(a.cells@ =~= b.cells@);
}

/// Splitting a row-major index back into grid coordinates.
pub proof fn lemma_index_decompose(w: int, h: int, i: int)
    by (nonlinear_arith)
    requires
        0 < w,
        0 <= i < w * h,
    ensures
        0 <= i % w < w,
        0 <= i / w < h,
        (i / w) * w + (i % w) == i,
{
}

/// Copies the cell vector so the pre-frame contents can be diffed against.
pub fn clone_cells(cells: &Vec<Cell>) -> (r: Vec<Cell>)
    ensures
        r@ == cells@,
{
    let mut r: Vec<Cell> = Vec::new();
    let mut i: usize = 0;
    while i < cells.len()
        invariant
            0 <= i <= cells@.len(),
            r@.len() == i,
            forall|j: int| 0 <= j < i ==> r@[j] == cells@[j],
        decreases cells@.len() - i,
    {
        r.push(cells[i]);
        i += 1;
    }
    proof {
        assert(r@ =~= cells@);
    }
    r
}


/// No index occurs twice in the list.
pub open spec fn nodup(l: Seq<usize>) -> bool {
    forall|k1: int, k2: int|
        0 <= k1 < k2 < l.len() ==> (#[trigger] l[k1]) != (#[trigger] l[k2])
}

/// Depth order used for painting: ascending z, ties broken by scene index,
/// so later-created entities paint on top of equal-depth ones.
pub open spec fn key_le(es: Seq<PlacedEntity>, a: int, b: int) -> bool {
    es[a].position.z < es[b].position.z || (es[a].position.z == es[b].position.z && a <= b)
}

/// The list is sorted in paint order.
pub open spec fn sorted_by_depth(es: Seq<PlacedEntity>, l: Seq<usize>) -> bool {
    forall|k1: int, k2: int|
        0 <= k1 <= k2 < l.len() ==> key_le(es, (#[trigger] l[k1]) as int, (#[trigger] l[k2]) as int)
}

/// Pushing extends list membership by exactly the pushed index.
pub proof fn lemma_in_list_push(l: Seq<usize>, v: usize)
    ensures
        in_list(l.push(v), v as int),
        forall|i: int| #[trigger] in_list(l, i) ==> in_list(l.push(v), i),
        forall|i: int| #[trigger] in_list(l.push(v), i) ==> in_list(l, i) || i == v as int,
{
    assert(l.push(v)[l.len() as int] == v);
    assert forall|i: int| #[trigger] in_list(l, i) implies in_list(l.push(v), i) by {
        let k = choose|k: int| 0 <= k < l.len() && (#[trigger] l[k]) as int == i;
        assert(l.push(v)[k] as int == i);
    }
    assert forall|i: int| #[trigger] in_list(l.push(v), i) && i != v as int implies in_list(
        l,
        i,
    ) by {
        let k = choose|k: int| 0 <= k < l.push(v).len() && (#[trigger] l.push(v)[k]) as int == i;
        assert(k < l.len());
        assert(l[k] as int == i);
    }
}

/// Removing one entry of a duplicate-free list removes exactly that index
/// from the membership.
pub proof fn lemma_in_list_remove(l: Seq<usize>, idx: int)
    requires
        0 <= idx < l.len(),
        nodup(l),
    ensures
        nodup(l.remove(idx)),
        forall|i: int|
            #[trigger] in_list(l.remove(idx), i) ==> in_list(l, i) && i != l[idx] as int,
        forall|i: int|
            #[trigger] in_list(l, i) && i != l[idx] as int ==> in_list(l.remove(idx), i),
{
    let s = l.remove(idx);
    assert forall|k1: int, k2: int| 0 <= k1 < k2 < s.len() implies (#[trigger] s[k1]) != (
    #[trigger] s[k2]) by {
        let o1 = if k1 < idx { k1 } else { k1 + 1 };
        let o2 = if k2 < idx { k2 } else { k2 + 1 };
        assert(s[k1] == l[o1]);
        assert(s[k2] == l[o2]);
    }
    assert forall|i: int| #[trigger] in_list(s, i) implies in_list(l, i) && i != l[idx] as int by {
        let k = choose|k: int| 0 <= k < s.len() && (#[trigger] s[k]) as int == i;
        let o = if k < idx { k } else { k + 1 };
        assert(s[k] == l[o]);
        assert(l[o] as int == i);
        assert(l[o] != l[idx]);
    }
    assert forall|i: int| #[trigger] in_list(l, i) && i != l[idx] as int implies in_list(s, i) by {
        let k = choose|k: int| 0 <= k < l.len() && (#[trigger] l[k]) as int == i;
        let j = if k < idx { k } else { k - 1 };
        assert(s[j] == l[k]);
    }
}

/// Taking one more element extends list membership by exactly that element.
pub proof fn lemma_in_list_take_step(l: Seq<usize>, m: int)
    requires
        0 <= m < l.len(),
    ensures
        in_list(l.take(m + 1), l[m] as int),
        forall|i: int| #[trigger] in_list(l.take(m), i) ==> in_list(l.take(m + 1), i),
        forall|i: int|
            #[trigger] in_list(l.take(m + 1), i) ==> in_list(l.take(m), i) || i == l[m] as int,
{
    assert(l.take(m + 1)[m] == l[m]);
    assert forall|i: int| #[trigger] in_list(l.take(m), i) implies in_list(l.take(m + 1), i) by {
        let k = choose|k: int| 0 <= k < l.take(m).len() && (#[trigger] l.take(m)[k]) as int == i;
        assert(l.take(m + 1)[k] as int == i);
    }
    assert forall|i: int| #[trigger] in_list(l.take(m + 1), i) && i != l[m] as int implies in_list(
        l.take(m),
        i,
    ) by {
        let k = choose|k: int|
            0 <= k < l.take(m + 1).len() && (#[trigger] l.take(m + 1)[k]) as int == i;
        assert(k < m);
        assert(l.take(m)[k] as int == i);
    }
}

/// Decides the paint order between two scene indices.
fn key_before(entities: &Vec<PlacedEntity>, a: usize, b: usize) -> (r: bool)
    requires
        a < entities@.len(),
        b < entities@.len(),
    ensures
        r == key_le(entities@, a as int, b as int),
{
    let za = entities[a].position.z;
    let zb = entities[b].position.z;
    za < zb || (za == zb && a <= b)
}

/// Sorts the redraw list into paint order: ascending depth, ties broken by
/// scene index.  The result holds exactly the same indices.
pub fn sort_redraw(redraw: &Vec<usize>, entities: &Vec<PlacedEntity>) -> (order: Vec<usize>)
    requires
        forall|k: int| 0 <= k < redraw@.len() ==> (#[trigger] redraw@[k]) < entities@.len(),
        nodup(redraw@),
    ensures
        order@.len() == redraw@.len(),
        forall|k: int| 0 <= k < order@.len() ==> (#[trigger] order@[k]) < entities@.len(),
        nodup(order@),
        forall|i: int| #[trigger] in_list(order@, i) == in_list(redraw@, i),
        sorted_by_depth(entities@, order@),
{
    let ghost es = entities@;
    let mut rem: Vec<usize> = Vec::new();
    let mut i: usize = 0;
    while i < redraw.len()
        invariant
            0 <= i <= redraw@.len(),
            rem@ == redraw@.take(i as int),
        decreases redraw@.len() - i,
    {
        rem.push(redraw[i]);
        proof {
            assert(rem@ =~= redraw@.take(i as int + 1));
        }
        i += 1;
    }
    proof {
        assert(rem@ =~= redraw@);
    }
    let mut order: Vec<usize> = Vec::new();
    while rem.len() > 0
        invariant
            es == entities@,
            forall|k: int| 0 <= k < rem@.len() ==> (#[trigger] rem@[k]) < es.len(),
            forall|k: int| 0 <= k < order@.len() ==> (#[trigger] order@[k]) < es.len(),
            nodup(rem@),
            nodup(order@),
            order@.len() + rem@.len() == redraw@.len(),
            forall|i2: int| !(#[trigger] in_list(order@, i2) && in_list(rem@, i2)),
            forall|i2: int|
                (#[trigger] in_list(order@, i2) || in_list(rem@, i2)) == in_list(redraw@, i2),
            sorted_by_depth(es, order@),
            forall|a: int, b: int|
                0 <= a < order@.len() && 0 <= b < rem@.len() ==> key_le(
                    es,
                    (#[trigger] order@[a]) as int,
                    (#[trigger] rem@[b]) as int,
                ),
        decreases rem@.len(),
    {
        let mut best: usize = 0;
        let mut bi: usize = 1;
        while bi < rem.len()
            invariant
                es == entities@,
                rem@.len() > 0,
                forall|k: int| 0 <= k < rem@.len() ==> (#[trigger] rem@[k]) < es.len(),
                0 <= best < bi <= rem@.len() || (best == 0 && bi <= 1),
                best < rem@.len(),
                1 <= bi <= rem@.len(),
                forall|j: int|
                    0 <= j < bi ==> key_le(es, rem@[best as int] as int, (#[trigger] rem@[j]) as int),
            decreases rem@.len() - bi,
        {
            if key_before(entities, rem[bi], rem[best]) {
                best = bi;
            }
            bi += 1;
        }
        let ghost pre_rem = rem@;
        let ghost pre_order = order@;
        let v = rem.remove(best);
        order.push(v);
        proof {
            assert(v == pre_rem[best as int]);
            lemma_in_list_remove(pre_rem, best as int);
            lemma_in_list_push(pre_order, v);
            assert(in_list(pre_rem, v as int));
            assert(!in_list(pre_order, v as int));
            // the pushed entry is new, so the list stays duplicate-free
            assert forall|k1: int, k2: int| 0 <= k1 < k2 < order@.len() implies (
            #[trigger] order@[k1]) != (#[trigger] order@[k2]) by {
                if k2 == order@.len() - 1 {
                    assert(order@[k1] == pre_order[k1]);
                    assert(in_list(pre_order, pre_order[k1] as int));
                }
            }
            // membership bookkeeping
            assert forall|i2: int| !(#[trigger] in_list(order@, i2) && in_list(rem@, i2)) by {
                if in_list(order@, i2) && in_list(rem@, i2) {
                    assert(in_list(pre_rem, i2) && i2 != v as int);
                    assert(in_list(pre_order, i2) || i2 == v as int);
                }
            }
            assert forall|i2: int| (#[trigger] in_list(order@, i2) || in_list(rem@, i2))
                == in_list(redraw@, i2) by {
                if in_list(order@, i2) {
                    assert(in_list(pre_order, i2) || i2 == v as int);
                    assert(in_list(pre_order, i2) || in_list(pre_rem, i2));
                }
                if in_list(rem@, i2) {
                    assert(in_list(pre_rem, i2));
                }
                if in_list(redraw@, i2) {
                    assert(in_list(pre_order, i2) || in_list(pre_rem, i2));
                    if in_list(pre_order, i2) {
                        assert(in_list(order@, i2));
                    } else {
                        assert(in_list(pre_rem, i2));
                        if i2 == v as int {
                            assert(in_list(order@, i2));
                        } else {
                            assert(in_list(rem@, i2));
                        }
                    }
                }
            }
            // the popped minimum keeps the output sorted
            assert forall|k1: int, k2: int| 0 <= k1 <= k2 < order@.len() implies key_le(
                es,
                (#[trigger] order@[k1]) as int,
                (#[trigger] order@[k2]) as int,
            ) by {
                if k2 == order@.len() - 1 {
                    if k1 < k2 {
                        assert(order@[k1] == pre_order[k1]);
                        assert(key_le(es, pre_order[k1] as int, pre_rem[best as int] as int));
                    }
                }
            }
            assert forall|a: int, b: int|
                0 <= a < order@.len() && 0 <= b < rem@.len() implies key_le(
                es,
                (#[trigger] order@[a]) as int,
                (#[trigger] rem@[b]) as int,
            ) by {
                let ob = if b < best as int { b } else { b + 1 };
                assert(rem@[b] == pre_rem[ob]);
                if a < order@.len() - 1 {
                    assert(order@[a] == pre_order[a]);
                } else {
                    assert(order@[a] == v);
                    assert(key_le(es, pre_rem[best as int] as int, pre_rem[ob] as int));
                }
            }
        }
    }
    order
}


/// The cell lies inside some rectangle of the clear list.
pub open spec fn in_clears(clears: Seq<Rect>, x: int, y: int) -> bool {
    exists|m: int| 0 <= m < clears.len() && (#[trigger] clears[m]).contains(x, y)
}

/// Taking one more clear rectangle extends the cleared cells by exactly it.
pub proof fn lemma_in_clears_step(clears: Seq<Rect>, m: int, x: int, y: int)
    requires
        0 <= m < clears.len(),
    ensures
        in_clears(clears.take(m + 1), x, y) == (in_clears(clears.take(m), x, y)
            || clears[m].contains(x, y)),
{
    if in_clears(clears.take(m), x, y) {
        let j = choose|j: int|
            0 <= j < clears.take(m).len() && (#[trigger] clears.take(m)[j]).contains(x, y);
        assert(clears.take(m + 1)[j].contains(x, y));
    }
    if clears[m].contains(x, y) {
        assert(clears.take(m + 1)[m].contains(x, y));
    }
    if in_clears(clears.take(m + 1), x, y) {
        let j = choose|j: int|
            0 <= j < clears.take(m + 1).len() && (#[trigger] clears.take(m + 1)[j]).contains(x, y);
        if j < m {
            assert(clears.take(m)[j].contains(x, y));
        } else {
            assert(clears[m].contains(x, y));
        }
    }
}

/// Every entity's handles index into the asset tables.
pub open spec fn assets_ok(es: Seq<PlacedEntity>, n_sprites: int, n_styles: int) -> bool {
    forall|i: int|
        0 <= i < es.len() ==> (#[trigger] es[i]).sprite < n_sprites && es[i].style < n_styles
}

/// Every glyph buffer in the table is well formed.
pub open spec fn sprites_wf(sps: Seq<Sprite>) -> bool {
    forall|i: int| 0 <= i < sps.len() ==> (#[trigger] sps[i]).wf()
}

/// The entity's style grid disagrees with its glyph buffer's dimensions:
/// a content error, so the entity is skipped for the frame.
pub open spec fn mismatched(
    es: Seq<PlacedEntity>,
    sps: Seq<Sprite>,
    sts: Seq<StyleMap>,
    k: int,
) -> bool {
    !sts[es[k].style as int].matches_dims(sps[es[k].sprite as int])
}

/// Entity `k` paints cell `(x, y)` this frame: it is scheduled, its style
/// grid matches its glyph buffer, and it covers the cell.
pub open spec fn paints(
    es: Seq<PlacedEntity>,
    sps: Seq<Sprite>,
    sts: Seq<StyleMap>,
    list: Seq<usize>,
    k: int,
    x: int,
    y: int,
) -> bool {
    &&& 0 <= k < es.len()
    &&& in_list(list, k)
    &&& !mismatched(es, sps, sts, k)
    &&& covers(es[k], sps[es[k].sprite as int], x, y)
}

/// The cell entity `k` paints at `(x, y)`.
pub open spec fn cell_of(
    es: Seq<PlacedEntity>,
    sps: Seq<Sprite>,
    sts: Seq<StyleMap>,
    k: int,
    x: int,
    y: int,
) -> Cell {
    painted_cell(es[k], sps[es[k].sprite as int], sts[es[k].style as int], x, y)
}

/// Entity `k` paints `(x, y)` and no other painter of that cell comes
/// later in depth order: its paint is the one left visible.
pub open spec fn top_painter(
    es: Seq<PlacedEntity>,
    sps: Seq<Sprite>,
    sts: Seq<StyleMap>,
    list: Seq<usize>,
    k: int,
    x: int,
    y: int,
) -> bool {
    &&& paints(es, sps, sts, list, k, x, y)
    &&& forall|k2: int| #[trigger] paints(es, sps, sts, list, k2, x, y) ==> key_le(es, k2, k)
}

/// What a cell shows after the clear phase and before any painting.
pub open spec fn base_cell(
    pre: ScreenBuffer,
    clears: Seq<Rect>,
    full: bool,
    window: Colors,
    x: int,
    y: int,
) -> Cell {
    if full || in_clears(clears, x, y) {
        spec_blank_cell(window)
    } else {
        pre.at(x, y)
    }
}

/// The write records a real change: the cell is on screen, shows the new
/// value, and differed before.
pub open spec fn write_ok(wr: CellWrite, pre: ScreenBuffer, post: ScreenBuffer) -> bool {
    &&& post.in_bounds(wr.x as int, wr.y as int)
    &&& post.at(wr.x as int, wr.y as int) == wr.cell
    &&& pre.at(wr.x as int, wr.y as int) != wr.cell
}

/// The writes come in row-major order, so no cell is written twice.
pub open spec fn writes_ordered(ws: Seq<CellWrite>) -> bool {
    forall|m1: int, m2: int|
        0 <= m1 < m2 < ws.len() ==> ((#[trigger] ws[m1]).y < (#[trigger] ws[m2]).y || (ws[m1].y
            == ws[m2].y && ws[m1].x < ws[m2].x))
}

/// A shape-mismatch diagnostic for this id is in the list.
pub open spec fn err_contains(errs: Seq<RenderError>, id: u64) -> bool {
    exists|m: int| 0 <= m < errs.len() && (#[trigger] errs[m]) == (RenderError::ShapeMismatch { id })
}

/// What one compositing pass hands back: the terminal writes for the cells
/// that changed, and a diagnostic for every skipped entity.
pub struct FrameOutput {
    pub writes: Vec<CellWrite>,
    pub errors: Vec<RenderError>,
}

/// The diagnostic is justified: some scheduled entity has mismatched
/// dimensions and carries this id.
pub open spec fn justifies(
    err: RenderError,
    es: Seq<PlacedEntity>,
    sps: Seq<Sprite>,
    sts: Seq<StyleMap>,
    list: Seq<usize>,
) -> bool {
    exists|k: int|
        0 <= k < es.len() && in_list(list, k) && mismatched(es, sps, sts, k) && err
            == (RenderError::ShapeMismatch { id: (#[trigger] es[k]).id })
}

/// Every diagnostic in the list is justified by a scheduled entity.
pub open spec fn errors_justified(
    errs: Seq<RenderError>,
    es: Seq<PlacedEntity>,
    sps: Seq<Sprite>,
    sts: Seq<StyleMap>,
    list: Seq<usize>,
) -> bool {
    forall|m: int| 0 <= m < errs.len() ==> justifies(#[trigger] errs[m], es, sps, sts, list)
}

/// Every scheduled entity with mismatched dimensions has a diagnostic.
pub open spec fn mismatches_reported(
    errs: Seq<RenderError>,
    es: Seq<PlacedEntity>,
    sps: Seq<Sprite>,
    sts: Seq<StyleMap>,
    list: Seq<usize>,
) -> bool {
    forall|k: int|
        0 <= k < es.len() && in_list(list, k) && mismatched(es, sps, sts, k) ==> err_contains(
            errs,
            (#[trigger] es[k]).id,
        )
}

/// The screen after the clear phase: cleared cells are blank over the
/// window colors, all others still show the previous frame.
pub open spec fn clear_phase_done(
    s: ScreenBuffer,
    pre: ScreenBuffer,
    cl: Seq<Rect>,
    full: bool,
    window: Colors,
) -> bool {
    &&& forall|x: int, y: int|
        s.in_bounds(x, y) && (full || in_clears(cl, x, y)) ==> s.at(x, y) == spec_blank_cell(
            window,
        )
    &&& forall|x: int, y: int|
        s.in_bounds(x, y) && !(full || in_clears(cl, x, y)) ==> s.at(x, y) == pre.at(x, y)
}

/// Composites one frame: clears the scheduled rectangles (the whole screen
/// when the window colors changed), paints the redraw set in depth order
/// with transparency, and returns exactly the cells that differ from the
/// screen's previous contents, in row-major order.
#[verifier::rlimit(100)]
pub fn composite(
    screen: &mut ScreenBuffer,
    entities: &Vec<PlacedEntity>,
    sprites: &Vec<Sprite>,
    styles: &Vec<StyleMap>,
    redraw: &Vec<usize>,
    clears: &Vec<Rect>,
    window: Colors,
) -> (out: FrameOutput)
    requires
        old(screen).wf(),
        assets_ok(entities@, sprites@.len() as int, styles@.len() as int),
        sprites_wf(sprites@),
        forall|k: int| 0 <= k < redraw@.len() ==> (#[trigger] redraw@[k]) < entities@.len(),
        nodup(redraw@),
    ensures
        final(screen).wf(),
        final(screen).width == old(screen).width,
        final(screen).height == old(screen).height,
        final(screen).colors == window,
        forall|x: int, y: int|
            final(screen).in_bounds(x, y) && !(exists|k: int|
                paints(entities@, sprites@, styles@, redraw@, k, x, y)) ==> final(screen).at(x, y)
                == base_cell(
                *old(screen),
                clears@,
                window != old(screen).colors,
                window,
                x,
                y,
            ),
        forall|x: int, y: int, k: int|
            final(screen).in_bounds(x, y) && top_painter(
                entities@,
                sprites@,
                styles@,
                redraw@,
                k,
                x,
                y,
            ) ==> final(screen).at(x, y) == cell_of(entities@, sprites@, styles@, k, x, y),
        forall|m: int|
            0 <= m < out.writes@.len() ==> write_ok(
                #[trigger] out.writes@[m],
                *old(screen),
                *final(screen),
            ),
        forall|x: int, y: int|
            final(screen).in_bounds(x, y) && final(screen).at(x, y) != old(screen).at(x, y)
                ==> exists|m: int|
                0 <= m < out.writes@.len() && (#[trigger] out.writes@[m]).x as int == x
                    && out.writes@[m].y as int == y,
        writes_ordered(out.writes@),
        mismatches_reported(out.errors@, entities@, sprites@, styles@, redraw@),
        errors_justified(out.errors@, entities@, sprites@, styles@, redraw@),
        (redraw@.len() == 0 && clears@.len() == 0 && window == old(screen).colors) ==> (
        same_screen(*final(screen), *old(screen)) && out.writes@.len() == 0),
{
    let ghost pre = *old(screen);
    let ghost es = entities@;
    let ghost sps = sprites@;
    let ghost sts = styles@;
    let before = clone_cells(&screen.cells);
    let full: bool = !(window == screen.colors);

    // Clear phase: whole screen on a window-color change, then the
    // scheduled rectangles.
    let all = Rect { x0: 0, y0: 0, x1: screen.width as i64, y1: screen.height as i64 };
    if full {
        screen.colors = window;
        screen.clear_rect(&all);
        proof {
            assert forall|x: int, y: int| screen.in_bounds(x, y) implies screen.at(x, y)
                == spec_blank_cell(window) by {
                assert(all.contains(x, y));
            }
        }
    }
    proof {
        assert(in_clears(clears@.take(0), 0, 0) == false);
        assert(clear_phase_done(*screen, pre, clears@.take(0), full, window)) by {
            assert forall|x: int, y: int|
                screen.in_bounds(x, y) && !(full || in_clears(clears@.take(0), x, y)) implies screen.at(
                x,
                y,
            ) == pre.at(x, y) by {}
        }
    }
    let mut m: usize = 0;
    while m < clears.len()
        invariant
            0 <= m <= clears@.len(),
            screen.wf(),
            screen.width == pre.width,
            screen.height == pre.height,
            screen.colors == window,
            clear_phase_done(*screen, pre, clears@.take(m as int), full, window),
        decreases clears@.len() - m,
    {
        let ghost prev = *screen;
        screen.clear_rect(&clears[m]);
        proof {
            assert(clear_phase_done(*screen, pre, clears@.take(m as int + 1), full, window)) by {
                assert forall|x: int, y: int|
                    screen.in_bounds(x, y) && (full || in_clears(
                        clears@.take(m as int + 1),
                        x,
                        y,
                    )) implies screen.at(x, y) == spec_blank_cell(window) by {
                    lemma_in_clears_step(clears@, m as int, x, y);
                    assert(prev.in_bounds(x, y));
                    if clears@[m as int].contains(x, y) {
                        assert(screen.at(x, y) == spec_blank_cell(window));
                    } else if full || in_clears(clears@.take(m as int), x, y) {
                        assert(screen.at(x, y) == prev.at(x, y));
                    }
                }
                assert forall|x: int, y: int|
                    screen.in_bounds(x, y) && !(full || in_clears(
                        clears@.take(m as int + 1),
                        x,
                        y,
                    )) implies screen.at(x, y) == pre.at(x, y) by {
                    lemma_in_clears_step(clears@, m as int, x, y);
                    assert(prev.in_bounds(x, y));
                    assert(screen.at(x, y) == prev.at(x, y));
                }
            }
        }
        m += 1;
    }
    proof {
        assert(clears@.take(clears@.len() as int) =~= clears@);
        assert(clear_phase_done(*screen, pre, clears@, full, window));
        assert forall|x: int, y: int|
            screen.in_bounds(x, y) implies screen.at(x, y) == base_cell(
            pre,
            clears@,
            full,
            window,
            x,
            y,
        ) by {
            if full || in_clears(clears@, x, y) {
                assert(screen.at(x, y) == spec_blank_cell(window));
            } else {
                assert(screen.at(x, y) == pre.at(x, y));
            }
        }
    }

    // Paint phase, in depth order.
    let order = sort_redraw(redraw, entities);
    let mut errors: Vec<RenderError> = Vec::new();
    let mut mi: usize = 0;
    while mi < order.len()
        invariant
            0 <= mi <= order@.len(),
            es == entities@,
            sps == sprites@,
            sts == styles@,
            assets_ok(es, sps.len() as int, sts.len() as int),
            sprites_wf(sps),
            forall|k: int| 0 <= k < order@.len() ==> (#[trigger] order@[k]) < es.len(),
            nodup(order@),
            sorted_by_depth(es, order@),
            screen.wf(),
            screen.width == pre.width,
            screen.height == pre.height,
            screen.colors == window,
            forall|x: int, y: int|
                screen.in_bounds(x, y) && !(exists|k: int|
                    paints(es, sps, sts, order@.take(mi as int), k, x, y)) ==> screen.at(x, y)
                    == base_cell(pre, clears@, full, window, x, y),
            forall|x: int, y: int, k: int|
                screen.in_bounds(x, y) && top_painter(
                    es,
                    sps,
                    sts,
                    order@.take(mi as int),
                    k,
                    x,
                    y,
                ) ==> screen.at(x, y) == cell_of(es, sps, sts, k, x, y),
            forall|j: int|
                0 <= j < mi && mismatched(es, sps, sts, (#[trigger] order@[j]) as int)
                    ==> err_contains(errors@, es[order@[j] as int].id),
            errors_justified(errors@, es, sps, sts, redraw@),
            forall|i2: int| #[trigger] in_list(order@, i2) == in_list(redraw@, i2),
        decreases order@.len() - mi,
    {
        let k = order[mi];
        let e = entities[k];
        let sp = &sprites[e.sprite];
        let st = &styles[e.style];
        let ghost tk = order@.take(mi as int);
        let ghost tk1 = order@.take(mi as int + 1);
        let ghost kmi = order@[mi as int] as int;
        proof {
            lemma_in_list_take_step(order@, mi as int);
        }
        if st.matches(sp) {
            let ghost prev = *screen;
            paint_entity(screen, &e, sp, st);
            proof {
                assert(!mismatched(es, sps, sts, kmi));
                assert(in_list(tk1, kmi));
                assert forall|x: int, y: int|
                    screen.in_bounds(x, y) && !(exists|k2: int|
                        paints(es, sps, sts, tk1, k2, x, y)) implies screen.at(x, y) == base_cell(
                    pre,
                    clears@,
                    full,
                    window,
                    x,
                    y,
                ) by {
                    assert(!paints(es, sps, sts, tk1, kmi, x, y));
                    assert(!covers(es[kmi], sps[es[kmi].sprite as int], x, y));
                    assert forall|k2: int| !(#[trigger] paints(es, sps, sts, tk, k2, x, y)) by {
                        if paints(es, sps, sts, tk, k2, x, y) {
                            assert(in_list(tk1, k2));
                            assert(paints(es, sps, sts, tk1, k2, x, y));
                        }
                    }
                    assert(screen.at(x, y) == prev.at(x, y));
                }
                assert forall|x: int, y: int, k2: int|
                    screen.in_bounds(x, y) && top_painter(es, sps, sts, tk1, k2, x, y) implies screen.at(
                    x,
                    y,
                ) == cell_of(es, sps, sts, k2, x, y) by {
                    if covers(es[kmi], sps[es[kmi].sprite as int], x, y) {
                        assert(paints(es, sps, sts, tk1, kmi, x, y));
                        assert(key_le(es, kmi, k2));
                        if k2 != kmi {
                            assert(in_list(tk, k2));
                            let j = choose|j: int|
                                0 <= j < tk.len() && (#[trigger] tk[j]) as int == k2;
                            assert(order@[j] as int == k2);
                            assert(key_le(es, order@[j] as int, order@[mi as int] as int));
                            assert(false);
                        }
                        assert(screen.at(x, y) == painted_cell(
                            es[kmi],
                            sps[es[kmi].sprite as int],
                            sts[es[kmi].style as int],
                            x,
                            y,
                        ));
                    } else {
                        assert(k2 != kmi);
                        assert(in_list(tk, k2));
                        assert(paints(es, sps, sts, tk, k2, x, y));
                        assert forall|k3: int|
                            #[trigger] paints(es, sps, sts, tk, k3, x, y) implies key_le(
                            es,
                            k3,
                            k2,
                        ) by {
                            assert(in_list(tk1, k3));
                            assert(paints(es, sps, sts, tk1, k3, x, y));
                        }
                        assert(top_painter(es, sps, sts, tk, k2, x, y));
                        assert(screen.at(x, y) == prev.at(x, y));
                    }
                }
                assert(!mismatched(es, sps, sts, kmi));
            }
        } else {
            let ghost pre_errs = errors@;
            errors.push(RenderError::ShapeMismatch { id: e.id });
            proof {
                assert(mismatched(es, sps, sts, kmi));
                assert(errors@[pre_errs.len() as int] == (RenderError::ShapeMismatch {
                    id: es[kmi].id,
                }));
                assert forall|j: int|
                    0 <= j < mi + 1 && mismatched(es, sps, sts, (#[trigger] order@[j]) as int)
                        implies err_contains(errors@, es[order@[j] as int].id) by {
                    if j < mi as int {
                        assert(err_contains(pre_errs, es[order@[j] as int].id));
                        let m2 = choose|m2: int|
                            0 <= m2 < pre_errs.len() && (#[trigger] pre_errs[m2])
                                == (RenderError::ShapeMismatch { id: es[order@[j] as int].id });
                        assert(errors@[m2] == (RenderError::ShapeMismatch {
                            id: es[order@[j] as int].id,
                        }));
                    } else {
                        assert(err_contains(errors@, es[kmi].id));
                    }
                }
                assert forall|x: int, y: int|
                    screen.in_bounds(x, y) && !(exists|k2: int|
                        paints(es, sps, sts, tk1, k2, x, y)) implies screen.at(x, y) == base_cell(
                    pre,
                    clears@,
                    full,
                    window,
                    x,
                    y,
                ) by {
                    assert forall|k2: int| !(#[trigger] paints(es, sps, sts, tk, k2, x, y)) by {
                        if paints(es, sps, sts, tk, k2, x, y) {
                            assert(in_list(tk1, k2));
                            assert(paints(es, sps, sts, tk1, k2, x, y));
                        }
                    }
                }
                assert forall|x: int, y: int, k2: int|
                    screen.in_bounds(x, y) && top_painter(es, sps, sts, tk1, k2, x, y) implies screen.at(
                    x,
                    y,
                ) == cell_of(es, sps, sts, k2, x, y) by {
                    assert(k2 != kmi);
                    assert(in_list(tk, k2));
                    assert(paints(es, sps, sts, tk, k2, x, y));
                    assert forall|k3: int|
                        #[trigger] paints(es, sps, sts, tk, k3, x, y) implies key_le(
                        es,
                        k3,
                        k2,
                    ) by {
                        assert(in_list(tk1, k3));
                        assert(paints(es, sps, sts, tk1, k3, x, y));
                    }
                    assert(top_painter(es, sps, sts, tk, k2, x, y));
                }
                assert(in_list(order@, kmi));
                assert(in_list(redraw@, kmi));
                assert(justifies(
                    RenderError::ShapeMismatch { id: es[kmi].id },
                    es,
                    sps,
                    sts,
                    redraw@,
                ));
                assert(errors_justified(errors@, es, sps, sts, redraw@)) by {
                    assert forall|m2: int| 0 <= m2 < errors@.len() implies justifies(
                        #[trigger] errors@[m2],
                        es,
                        sps,
                        sts,
                        redraw@,
                    ) by {
                        if m2 < pre_errs.len() {
                            assert(errors@[m2] == pre_errs[m2]);
                            assert(justifies(pre_errs[m2], es, sps, sts, redraw@));
                        } else {
                            assert(errors@[m2] == (RenderError::ShapeMismatch { id: es[kmi].id }));
                        }
                    }
                }
            }
        }
        mi += 1;
    }
    proof {
        assert(order@.take(order@.len() as int) =~= order@);
        assert forall|k: int, x: int, y: int|
            #[trigger] paints(es, sps, sts, order@, k, x, y) implies paints(
            es,
            sps,
            sts,
            redraw@,
            k,
            x,
            y,
        ) by {
            assert(in_list(order@, k) == in_list(redraw@, k));
        }
        assert forall|k: int, x: int, y: int|
            #[trigger] paints(es, sps, sts, redraw@, k, x, y) implies paints(
            es,
            sps,
            sts,
            order@,
            k,
            x,
            y,
        ) by {
            assert(in_list(order@, k) == in_list(redraw@, k));
        }
        assert forall|x: int, y: int|
            screen.in_bounds(x, y) && !(exists|k: int|
                paints(es, sps, sts, redraw@, k, x, y)) implies screen.at(x, y) == base_cell(
            pre,
            clears@,
            full,
            window,
            x,
            y,
        ) by {
            assert forall|k: int| !(#[trigger] paints(es, sps, sts, order@, k, x, y)) by {
                if paints(es, sps, sts, order@, k, x, y) {
                    assert(paints(es, sps, sts, redraw@, k, x, y));
                }
            }
        }
        assert forall|x: int, y: int, k: int|
            screen.in_bounds(x, y) && top_painter(es, sps, sts, redraw@, k, x, y) implies screen.at(
            x,
            y,
        ) == cell_of(es, sps, sts, k, x, y) by {
            assert(paints(es, sps, sts, order@, k, x, y));
            assert forall|k2: int| #[trigger] paints(es, sps, sts, order@, k2, x, y) implies key_le(
                es,
                k2,
                k,
            ) by {
                assert(paints(es, sps, sts, redraw@, k2, x, y));
            }
            assert(top_painter(es, sps, sts, order@, k, x, y));
        }
        assert(mismatches_reported(errors@, es, sps, sts, redraw@)) by {
            assert forall|k: int|
                0 <= k < es.len() && in_list(redraw@, k) && mismatched(es, sps, sts, k) implies err_contains(
                errors@,
                (#[trigger] es[k]).id,
            ) by {
                assert(in_list(order@, k));
                let j = choose|j: int| 0 <= j < order@.len() && (#[trigger] order@[j]) as int == k;
                assert(mismatched(es, sps, sts, order@[j] as int));
            }
        }
    }

    // Diff phase: queue a write for every cell that differs from the
    // screen's previous contents, in row-major order.
    let w: usize = screen.width as usize;
    let h: usize = screen.height as usize;
    let mut writes: Vec<CellWrite> = Vec::new();
    let mut yy: usize = 0;
    while yy < h
        invariant
            0 <= yy <= h,
            w == screen.width as int,
            h == screen.height as int,
            screen.wf(),
            screen.width == pre.width,
            screen.height == pre.height,
            pre.wf(),
            before@ == pre.cells@,
            forall|m2: int|
                0 <= m2 < writes@.len() ==> write_ok(#[trigger] writes@[m2], pre, *screen),
            forall|m2: int|
                0 <= m2 < writes@.len() ==> ((#[trigger] writes@[m2]).y as int) < yy,
            forall|x2: int, y2: int|
                0 <= x2 < w && 0 <= y2 < yy && screen.at(x2, y2) != pre.at(x2, y2) ==> exists|
                    m2: int,
                |
                    0 <= m2 < writes@.len() && (#[trigger] writes@[m2]).x as int == x2
                        && writes@[m2].y as int == y2,
            writes_ordered(writes@),
        decreases h - yy,
    {
        let mut xx: usize = 0;
        while xx < w
            invariant
                0 <= xx <= w,
                0 <= yy < h,
                w == screen.width as int,
                h == screen.height as int,
                screen.wf(),
                screen.width == pre.width,
                screen.height == pre.height,
                pre.wf(),
                before@ == pre.cells@,
                forall|m2: int|
                    0 <= m2 < writes@.len() ==> write_ok(#[trigger] writes@[m2], pre, *screen),
                forall|m2: int|
                    0 <= m2 < writes@.len() ==> (((#[trigger] writes@[m2]).y as int) < yy || (
                    writes@[m2].y as int == yy && (writes@[m2].x as int) < xx)),
                forall|x2: int, y2: int|
                    0 <= x2 < w && 0 <= y2 < h && (y2 < yy || (y2 == yy && x2 < xx)) && screen.at(
                        x2,
                        y2,
                    ) != pre.at(x2, y2) ==> exists|m2: int|
                        0 <= m2 < writes@.len() && (#[trigger] writes@[m2]).x as int == x2
                            && writes@[m2].y as int == y2,
                writes_ordered(writes@),
            decreases w - xx,
        {
            let nc = screen.cell(xx, yy);
            let n0 = before.len();
            proof {
                lemma_grid_index_bounds(pre.width as int, pre.height as int, xx as int, yy as int);
                assert(n0 == pre.cells@.len());
                assert(yy * w + xx < n0);
            }
            let oc = before[yy * w + xx];
            proof {
                assert(oc == pre.at(xx as int, yy as int));
            }
            if !(nc == oc) {
                let ghost pre_writes = writes@;
                writes.push(CellWrite { x: xx as u16, y: yy as u16, cell: nc });
                proof {
                    assert(writes@[pre_writes.len() as int] == (CellWrite {
                        x: xx as u16,
                        y: yy as u16,
                        cell: nc,
                    }));
                    assert forall|x2: int, y2: int|
                        0 <= x2 < w && 0 <= y2 < h && (y2 < yy || (y2 == yy && x2 < xx + 1))
                            && screen.at(x2, y2) != pre.at(x2, y2) implies exists|m2: int|
                        0 <= m2 < writes@.len() && (#[trigger] writes@[m2]).x as int == x2
                            && writes@[m2].y as int == y2 by {
                        if y2 < yy as int || (y2 == yy as int && x2 < xx as int) {
                            let m2 = choose|m2: int|
                                0 <= m2 < pre_writes.len() && (#[trigger] pre_writes[m2]).x as int
                                    == x2 && pre_writes[m2].y as int == y2;
                            assert(writes@[m2].x as int == x2 && writes@[m2].y as int == y2);
                        } else {
                            assert(writes@[pre_writes.len() as int].x as int == x2);
                        }
                    }
                }
            }
            xx += 1;
        }
        yy += 1;
    }

    // With nothing scheduled and unchanged window colors, the screen is
    // untouched and no write is queued.
    proof {
        if redraw@.len() == 0 && clears@.len() == 0 && !full {
            assert forall|x: int, y: int|
                screen.in_bounds(x, y) implies screen.at(x, y) == pre.at(x, y) by {
                assert(!in_clears(clears@, x, y));
                if exists|k: int| paints(es, sps, sts, redraw@, k, x, y) {
                    let k = choose|k: int| paints(es, sps, sts, redraw@, k, x, y);
                    let j = choose|j: int|
                        0 <= j < redraw@.len() && (#[trigger] redraw@[j]) as int == k;
                    assert(false);
                }
                assert(screen.at(x, y) == base_cell(pre, clears@, full, window, x, y));
            }
            lemma_screen_eq(*screen, pre);
            if writes@.len() > 0 {
                assert(write_ok(writes@[0], pre, *screen));
                assert(false);
            }
        }
    }
    let out = FrameOutput { writes, errors };
    proof {
        assert(out.writes@ == writes@);
        assert(out.errors@ == errors@);
        assert forall|x: int, y: int|
            screen.in_bounds(x, y) && screen.at(x, y) != pre.at(x, y) implies exists|m2: int|
            0 <= m2 < out.writes@.len() && (#[trigger] out.writes@[m2]).x as int == x
                && out.writes@[m2].y as int == y by {
            let m2 = choose|m2: int|
                0 <= m2 < writes@.len() && (#[trigger] writes@[m2]).x as int == x
                    && writes@[m2].y as int == y;
            assert(out.writes@[m2].x as int == x && out.writes@[m2].y as int == y);
        }
        assert(mismatches_reported(out.errors@, es, sps, sts, redraw@));
        assert(errors_justified(out.errors@, es, sps, sts, redraw@));
    }
    out
}

} // verus!
