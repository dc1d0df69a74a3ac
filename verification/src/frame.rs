//! The per-frame driver: resolve the redraw set, composite it, and commit
//! the just-rendered scene as the next frame's baseline.

use vstd::prelude::*;

use crate::compositor::CellWrite;
use crate::compositor::RenderError;
use crate::compositor::assets_ok;
use crate::compositor::base_cell;
use crate::compositor::cell_of;
use crate::compositor::composite;
use crate::compositor::errors_justified;
use crate::compositor::mismatches_reported;
use crate::compositor::nodup;
use crate::compositor::paints;
use crate::compositor::same_screen;
use crate::compositor::sprites_wf;
use crate::compositor::top_painter;
use crate::compositor::write_ok;
use crate::compositor::writes_ordered;
use crate::compositor::key_le as key_le_frame;
use crate::entity::PlacedEntity;
use crate::entity::snap_matches;
use crate::entity::snapshot_of;
use crate::entity::spec_snapshot_of;
use crate::history::FrameHistoryStore;
use crate::rect::Rect;
use crate::resolver::directly_dirty;
use crate::resolver::distinct_ids;
use crate::resolver::in_list;
use crate::resolver::inputs_ok;
use crate::resolver::is_live;
use crate::resolver::live;
use crate::resolver::quiet;
use crate::resolver::resolve;
use crate::resolver::resolve_post;
use crate::screen::ScreenBuffer;
use crate::sprite::Sprite;
use crate::sprite::StyleMap;
use crate::style::Colors;

verus! {

/// The history records exactly the live entities, each with its current
/// placement, handles, transparency and glyph dimensions.
pub open spec fn history_matches(
    hist: FrameHistoryStore,
    es: Seq<PlacedEntity>,
    sps: Seq<Sprite>,
) -> bool {
    &&& forall|id: u64| hist.contains_id(id) == live(es, id)
    &&& forall|i: int|
        0 <= i < es.len() ==> hist.snap_of((#[trigger] es[i]).id) == spec_snapshot_of(
            es[i],
            sps[es[i].sprite as int].width,
            sps[es[i].sprite as int].height,
        )
}

/// A scene whose history already matches it, with no content reloaded in
/// place, is quiet: nothing is directly dirty and nothing was despawned.
/// Rendering such a frame produces no terminal writes.
pub proof fn lemma_unchanged_scene_is_quiet(
    hist: FrameHistoryStore,
    es: Seq<PlacedEntity>,
    sps: Seq<Sprite>,
    sc: Seq<bool>,
    stc: Seq<bool>,
)
    requires
        history_matches(hist, es, sps),
        inputs_ok(es, sps.len() as int, sc.len() as int, stc.len() as int),
        forall|i: int| 0 <= i < sc.len() ==> !sc[i],
        forall|i: int| 0 <= i < stc.len() ==> !stc[i],
    ensures
        quiet(es, hist, sc, stc),
{
    assert forall|i: int| 0 <= i < es.len() implies !directly_dirty(
        #[trigger] es[i],
        hist,
        sc,
        stc,
    ) by {
        assert(es[i].id == es[i].id);
        assert(live(es, es[i].id));
        assert(hist.contains_id(es[i].id));
        assert(snap_matches(hist.snap_of(es[i].id), es[i]));
    }
    assert forall|k: int| 0 <= k < hist.entries@.len() implies live(
        es,
        (#[trigger] hist.entries@[k]).0,
    ) by {
        assert(hist.contains_id(hist.entries@[k].0));
    }
}

/// Everything one frame hands back: the terminal writes, the per-entity
/// diagnostics, and the redraw set the resolver computed (for inspection).
pub struct FrameResult {
    pub writes: Vec<CellWrite>,
    pub errors: Vec<RenderError>,
    pub redraw: Vec<usize>,
    pub clears: Vec<Rect>,
}

/// Renders one frame: diffs the scene against the history, clears and
/// repaints only what is needed, queues the terminal writes for the cells
/// that changed, and commits the scene as the next frame's baseline.
#[verifier::rlimit(60)]
pub fn render_frame(
    screen: &mut ScreenBuffer,
    history: &mut FrameHistoryStore,
    entities: &Vec<PlacedEntity>,
    sprites: &Vec<Sprite>,
    styles: &Vec<StyleMap>,
    sprite_changed: &Vec<bool>,
    style_changed: &Vec<bool>,
    window: Colors,
) -> (out: FrameResult)
    requires
        old(screen).wf(),
        old(history).wf(),
        distinct_ids(entities@),
        inputs_ok(entities@, sprites@.len() as int, sprite_changed@.len() as int,
            style_changed@.len() as int),
        assets_ok(entities@, sprites@.len() as int, styles@.len() as int),
        sprites_wf(sprites@),
    ensures
        resolve_post(
            entities@,
            sprites@,
            *old(history),
            sprite_changed@,
            style_changed@,
            out.redraw@,
            out.clears@,
        ),
        final(screen).wf(),
        final(screen).width == old(screen).width,
        final(screen).height == old(screen).height,
        final(screen).colors == window,
        forall|x: int, y: int|
            final(screen).in_bounds(x, y) && !(exists|k: int|
                paints(entities@, sprites@, styles@, out.redraw@, k, x, y)) ==> final(screen).at(
                x,
                y,
            ) == base_cell(
                *old(screen),
                out.clears@,
                window != old(screen).colors,
                window,
                x,
                y,
            ),
        forall|x: int, y: int, k: int|
            final(screen).in_bounds(x, y) && top_painter(
                entities@,
                sprites@,
                styles@,
                out.redraw@,
                k,
                x,
                y,
            ) ==> final(screen).at(x, y) == cell_of(entities@, sprites@, styles@, k, x, y),
        forall|m: int|
            0 <= m < out.writes@.len() ==> write_ok(
                #[trigger] out.writes@[m],
                *old(screen),
                *final(screen),
            ),
        forall|x: int, y: int|
            final(screen).in_bounds(x, y) && final(screen).at(x, y) != old(screen).at(x, y)
                ==> exists|m: int|
                0 <= m < out.writes@.len() && (#[trigger] out.writes@[m]).x as int == x
                    && out.writes@[m].y as int == y,
        writes_ordered(out.writes@),
        mismatches_reported(out.errors@, entities@, sprites@, styles@, out.redraw@),
        errors_justified(out.errors@, entities@, sprites@, styles@, out.redraw@),
        final(history).wf(),
        history_matches(*final(history), entities@, sprites@),
        (quiet(entities@, *old(history), sprite_changed@, style_changed@) && window == old(
            screen,
        ).colors) ==> (out.writes@.len() == 0 && same_screen(*final(screen), *old(screen))),
{
    let ghost es = entities@;
    let ghost sps = sprites@;
    let ghost hist0 = *history;

    let rs = resolve(entities, sprites, history, sprite_changed, style_changed);
    proof {
        assert(nodup(rs.redraw@));
    }
    let fo = composite(screen, entities, sprites, styles, &rs.redraw, &rs.clears, window);

    // Phase 1: collect the despawned ids.
    let mut despawned: Vec<u64> = Vec::new();
    let mut k: usize = 0;
    while k < history.len()
        invariant
            0 <= k <= hist0.entries@.len(),
            *history == hist0,
            hist0.wf(),
            es == entities@,
            forall|a: int|
                0 <= a < despawned@.len() ==> exists|kk: int|
                    0 <= kk < k && (#[trigger] despawned@[a]) == hist0.entries@[kk].0 && !live(
                        es,
                        despawned@[a],
                    ),
            forall|kk: int|
                0 <= kk < k && !live(es, (#[trigger] hist0.entries@[kk]).0) ==> exists|a: int|
                    0 <= a < despawned@.len() && (#[trigger] despawned@[a])
                        == hist0.entries@[kk].0,
            forall|a1: int, a2: int|
                0 <= a1 < a2 < despawned@.len() ==> (#[trigger] despawned@[a1]) != (
                #[trigger] despawned@[a2]),
        decreases hist0.entries@.len() - k,
    {
        let (id, _snap) = history.get(k);
        if !is_live(entities, id) {
            let ghost prev = despawned@;
            despawned.push(id);
            proof {
                assert(despawned@[prev.len() as int] == hist0.entries@[k as int].0);
                assert forall|kk: int|
                    0 <= kk < k + 1 && !live(es, (#[trigger] hist0.entries@[kk]).0) implies exists|
                    a: int,
                |
                    0 <= a < despawned@.len() && (#[trigger] despawned@[a])
                        == hist0.entries@[kk].0 by {
                    if kk < k as int {
                        let a = choose|a: int|
                            0 <= a < prev.len() && (#[trigger] prev[a]) == hist0.entries@[kk].0;
                        assert(despawned@[a] == hist0.entries@[kk].0);
                    } else {
                        assert(despawned@[prev.len() as int] == hist0.entries@[kk].0);
                    }
                }
                assert forall|a1: int, a2: int|
                    0 <= a1 < a2 < despawned@.len() implies (#[trigger] despawned@[a1]) != (
                #[trigger] despawned@[a2]) by {
                    if a2 == despawned@.len() - 1 {
                        let kk = choose|kk: int|
                            0 <= kk < k && (#[trigger] prev[a1]) == hist0.entries@[kk].0 && !live(
                                es,
                                prev[a1],
                            );
                        assert(hist0.wf());
                        assert(hist0.entries@[kk].0 != hist0.entries@[k as int].0);
                    }
                }
            }
        }
        k += 1;
    }

    proof {
        assert forall|a: int| 0 <= a < despawned@.len() implies hist0.contains_id(
            #[trigger] despawned@[a],
        ) by {
            let kk = choose|kk: int|
                0 <= kk < hist0.entries@.len() && (#[trigger] despawned@[a])
                    == hist0.entries@[kk].0 && !live(es, despawned@[a]);
            assert(hist0.entries@[kk].0 == despawned@[a]);
        }
    }

    // Phase 2: drop each despawned entity's snapshot.
    let mut d: usize = 0;
    while d < despawned.len()
        invariant
            0 <= d <= despawned@.len(),
            es == entities@,
            history.wf(),
            forall|a: int|
                0 <= a < despawned@.len() ==> !live(es, #[trigger] despawned@[a]),
            forall|a: int| 0 <= a < despawned@.len() ==> hist0.contains_id(#[trigger] despawned@[a]),
            forall|a1: int, a2: int|
                0 <= a1 < a2 < despawned@.len() ==> (#[trigger] despawned@[a1]) != (
                #[trigger] despawned@[a2]),
            forall|id: u64|
                history.contains_id(id) == (hist0.contains_id(id) && !(exists|a: int|
                    0 <= a < d && (#[trigger] despawned@[a]) == id)),
            forall|id: u64| #[trigger]
                history.contains_id(id) ==> history.snap_of(id) == hist0.snap_of(id),
        decreases despawned@.len() - d,
    {
        let id = despawned[d];
        proof {
            assert(hist0.contains_id(id));
            assert(history.contains_id(id)) by {
                if exists|a: int| 0 <= a < d && (#[trigger] despawned@[a]) == id {
                    let a = choose|a: int| 0 <= a < d && (#[trigger] despawned@[a]) == id;
                    assert(false);
                }
            }
        }
        let ghost prev = *history;
        let _last = history.forget(id);
        proof {
            assert forall|id2: u64|
                history.contains_id(id2) == (hist0.contains_id(id2) && !(exists|a: int|
                    0 <= a < d + 1 && (#[trigger] despawned@[a]) == id2)) by {
                if id2 == id {
                    assert(despawned@[d as int] == id2);
                    assert(!history.contains_id(id2));
                } else {
                    assert(history.contains_id(id2) == prev.contains_id(id2));
                    assert(despawned@[d as int] == id);
                    if exists|a: int| 0 <= a < d + 1 && (#[trigger] despawned@[a]) == id2 {
                        let a = choose|a: int|
                            0 <= a < d + 1 && (#[trigger] despawned@[a]) == id2;
                        assert(a < d);
                    }
                    if exists|a: int| 0 <= a < d && (#[trigger] despawned@[a]) == id2 {
                        let a = choose|a: int| 0 <= a < d && (#[trigger] despawned@[a]) == id2;
                        assert(0 <= a < d + 1 && despawned@[a] == id2);
                    }
                }
            }
        }
        d += 1;
    }

    // Phase 3: commit every live entity's current state, seeding the ones
    // seen for the first time.
    let ghost hist_b = *history;
    let mut i: usize = 0;
    while i < entities.len()
        invariant
            0 <= i <= es.len(),
            es == entities@,
            sps == sprites@,
            distinct_ids(es),
            inputs_ok(es, sps.len() as int, sprite_changed@.len() as int,
                style_changed@.len() as int),
            history.wf(),
            forall|id: u64|
                history.contains_id(id) == (hist_b.contains_id(id) || (exists|j: int|
                    0 <= j < i && (#[trigger] es[j]).id == id)),
            forall|j: int|
                0 <= j < i ==> history.contains_id((#[trigger] es[j]).id) && history.snap_of(
                    es[j].id,
                ) == spec_snapshot_of(
                    es[j],
                    sps[es[j].sprite as int].width,
                    sps[es[j].sprite as int].height,
                ),
        decreases es.len() - i,
    {
        let e = entities[i];
        let sp = &sprites[e.sprite];
        let snap = snapshot_of(&e, sp.width, sp.height);
        let ghost prev = *history;
        match history.observe(e.id) {
            Some(_) => {
                history.commit(e.id, snap);
            },
            None => {
                history.seed(e.id, snap);
            },
        }
        proof {
            assert(history.contains_id(e.id));
            assert(history.snap_of(e.id) == snap);
            assert forall|id: u64|
                history.contains_id(id) == (hist_b.contains_id(id) || (exists|j: int|
                    0 <= j < i + 1 && (#[trigger] es[j]).id == id)) by {
                if id == e.id {
                    assert(es[i as int].id == id);
                } else {
                    assert(history.contains_id(id) == prev.contains_id(id));
                }
            }
            assert forall|j: int|
                0 <= j < i + 1 implies history.contains_id((#[trigger] es[j]).id)
                    && history.snap_of(es[j].id) == spec_snapshot_of(
                    es[j],
                    sps[es[j].sprite as int].width,
                    sps[es[j].sprite as int].height,
                ) by {
                if j < i as int {
                    assert(es[j].id != e.id);
                    assert(prev.contains_id(es[j].id));
                    assert(history.snap_of(es[j].id) == prev.snap_of(es[j].id));
                }
            }
        }
        i += 1;
    }
    proof {
        assert forall|id: u64| history.contains_id(id) == live(es, id) by {
            if history.contains_id(id) {
                if hist_b.contains_id(id) {
                    assert(hist0.contains_id(id));
                    if !live(es, id) {
                        let kk = choose|kk: int|
                            0 <= kk < hist0.entries@.len() && (#[trigger] hist0.entries@[kk]).0
                                == id;
                        assert(exists|a: int|
                            0 <= a < despawned@.len() && (#[trigger] despawned@[a])
                                == hist0.entries@[kk].0);
                        assert(false);
                    }
                }
            }
            if live(es, id) {
                let j = choose|j: int| 0 <= j < es.len() && (#[trigger] es[j]).id == id;
                assert(history.contains_id(es[j].id));
            }
        }
        if quiet(es, hist0, sprite_changed@, style_changed@) && window == old(screen).colors {
            assert(rs.redraw@.len() == 0 && rs.clears@.len() == 0);
            assert(fo.writes@.len() == 0);
        }
    }
    let ghost grd = rs.redraw@;
    let ghost gcl = rs.clears@;
    let ghost gwr = fo.writes@;
    let ghost ger = fo.errors@;
    let ghost sts = styles@;
    let out = FrameResult { writes: fo.writes, errors: fo.errors, redraw: rs.redraw, clears: rs.clears };
    proof {
        assert(out.redraw@ == grd);
        assert(out.clears@ == gcl);
        assert(out.writes@ == gwr);
        assert(out.errors@ == ger);
        let ghost full = (window != old(screen).colors);
        assert forall|x: int, y: int|
            screen.in_bounds(x, y) && !(exists|k: int|
                paints(es, sps, sts, out.redraw@, k, x, y)) implies screen.at(x, y) == base_cell(
            *old(screen),
            out.clears@,
            full,
            window,
            x,
            y,
        ) by {
            assert forall|k: int| !(#[trigger] paints(es, sps, sts, grd, k, x, y)) by {
                if paints(es, sps, sts, grd, k, x, y) {
                    assert(paints(es, sps, sts, out.redraw@, k, x, y));
                }
            }
            assert(screen.at(x, y) == base_cell(*old(screen), gcl, full, window, x, y));
            assert(base_cell(*old(screen), gcl, full, window, x, y) == base_cell(
                *old(screen),
                out.clears@,
                full,
                window,
                x,
                y,
            ));
        }
        assert forall|x: int, y: int, k: int|
            screen.in_bounds(x, y) && top_painter(es, sps, sts, out.redraw@, k, x, y) implies screen.at(
            x,
            y,
        ) == cell_of(es, sps, sts, k, x, y) by {
            assert(paints(es, sps, sts, grd, k, x, y));
            assert forall|k2: int| #[trigger] paints(es, sps, sts, grd, k2, x, y) implies key_le_frame(
                es,
                k2,
                k,
            ) by {
                assert(paints(es, sps, sts, out.redraw@, k2, x, y));
            }
            assert(top_painter(es, sps, sts, grd, k, x, y));
        }
        assert forall|m: int| 0 <= m < out.writes@.len() implies write_ok(
            #[trigger] out.writes@[m],
            *old(screen),
            *screen,
        ) by {
            assert(out.writes@[m] == gwr[m]);
            assert(write_ok(gwr[m], *old(screen), *screen));
        }
        assert forall|x: int, y: int|
            screen.in_bounds(x, y) && screen.at(x, y) != old(screen).at(x, y) implies exists|
                m: int,
            |
                0 <= m < out.writes@.len() && (#[trigger] out.writes@[m]).x as int == x
                    && out.writes@[m].y as int == y by {
            let m = choose|m: int|
                0 <= m < gwr.len() && (#[trigger] gwr[m]).x as int == x && gwr[m].y as int == y;
            assert(out.writes@[m].x as int == x && out.writes@[m].y as int == y);
        }
        assert(writes_ordered(out.writes@));
        assert(mismatches_reported(out.errors@, es, sps, sts, out.redraw@));
        assert(errors_justified(out.errors@, es, sps, sts, out.redraw@));
        assert(resolve_post(es, sps, hist0, sprite_changed@, style_changed@, out.redraw@,
            out.clears@));
    }
    out
}

} // verus!
