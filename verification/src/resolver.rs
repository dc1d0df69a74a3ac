//! The dirty-region resolver: decides which entities must be repainted and
//! which rectangles must be cleared so the terminal stays visually correct.

use vstd::prelude::*;

use crate::entity::PlacedEntity;
use crate::entity::snap_matches;
use crate::entity::spec_bbox;
use crate::entity::spec_snap_bbox;
use crate::entity::bbox;
use crate::history::FrameHistoryStore;
use crate::rect::Rect;
use crate::rect::rects_overlap;
use crate::sprite::Sprite;

verus! {

/// Every entity's handles index into the asset tables and change-flag
/// tables handed to the resolver.
pub open spec fn inputs_ok(es: Seq<PlacedEntity>, n_sprites: int, n_sc: int, n_stc: int) -> bool {
    forall|i: int|
        0 <= i < es.len() ==> (#[trigger] es[i]).sprite < n_sprites && es[i].sprite < n_sc
            && es[i].style < n_stc
}

/// No two live entities share an id.
pub open spec fn distinct_ids(es: Seq<PlacedEntity>) -> bool {
    forall|i: int, j: int|
        0 <= i < j < es.len() ==> (#[trigger] es[i]).id != (#[trigger] es[j]).id
}

/// An entity with this id is live in the scene.
pub open spec fn live(es: Seq<PlacedEntity>, id: u64) -> bool {
    exists|k: int| 0 <= k < es.len() && (#[trigger] es[k]).id == id
}

/// The current bounding box of the entity at index `i`.
pub open spec fn cur_box(es: Seq<PlacedEntity>, sprites: Seq<Sprite>, i: int) -> Rect {
    spec_bbox(
        es[i].position,
        sprites[es[i].sprite as int].width as int,
        sprites[es[i].sprite as int].height as int,
    )
}

/// An entity is directly dirty when it has no snapshot yet, when its
/// placement, handles or transparency differ from the snapshot, or when the
/// asset system reports that the content behind one of its handles changed
/// in place.
pub open spec fn directly_dirty(
    e: PlacedEntity,
    hist: FrameHistoryStore,
    sc: Seq<bool>,
    stc: Seq<bool>,
) -> bool {
    ||| !hist.contains_id(e.id)
    ||| !snap_matches(hist.snap_of(e.id), e)
    ||| sc[e.sprite as int]
    ||| stc[e.style as int]
}

/// Nothing in the scene changed: every live entity matches its snapshot,
/// no content changed in place, and nothing was despawned.
pub open spec fn quiet(
    es: Seq<PlacedEntity>,
    hist: FrameHistoryStore,
    sc: Seq<bool>,
    stc: Seq<bool>,
) -> bool {
    &&& forall|i: int| 0 <= i < es.len() ==> !directly_dirty(#[trigger] es[i], hist, sc, stc)
    &&& forall|k: int| 0 <= k < hist.entries@.len() ==> live(es, (#[trigger] hist.entries@[k]).0)
}

/// Index `i` occurs in the list.
pub open spec fn in_list(l: Seq<usize>, i: int) -> bool {
    exists|k: int| 0 <= k < l.len() && (#[trigger] l[k]) as int == i
}

/// The rectangle occurs in the list.
pub open spec fn region_contains(regions: Seq<Rect>, r: Rect) -> bool {
    exists|m: int| 0 <= m < regions.len() && (#[trigger] regions[m]) == r
}

/// A rectangle the resolver seeds the affected set with: the new bounding
/// box of a directly-dirty entity, the old bounding box recorded in its
/// snapshot, or the last bounding box of a despawned entity.
pub open spec fn is_seed_region(
    r: Rect,
    es: Seq<PlacedEntity>,
    sprites: Seq<Sprite>,
    hist: FrameHistoryStore,
    sc: Seq<bool>,
    stc: Seq<bool>,
) -> bool {
    ||| exists|i: int|
        0 <= i < es.len() && directly_dirty(#[trigger] es[i], hist, sc, stc) && r == cur_box(
            es,
            sprites,
            i,
        )
    ||| exists|i: int|
        0 <= i < es.len() && directly_dirty(#[trigger] es[i], hist, sc, stc) && hist.contains_id(
            es[i].id,
        ) && r == spec_snap_bbox(hist.snap_of(es[i].id))
    ||| exists|k: int|
        0 <= k < hist.entries@.len() && !live(es, (#[trigger] hist.entries@[k]).0) && r
            == spec_snap_bbox(hist.entries@[k].1)
}

/// Every affected region is either a seed region or the current bounding
/// box of an entity already in the working set.
pub open spec fn regions_sound(
    regions: Seq<Rect>,
    es: Seq<PlacedEntity>,
    sprites: Seq<Sprite>,
    hist: FrameHistoryStore,
    sc: Seq<bool>,
    stc: Seq<bool>,
    in_set: Seq<bool>,
) -> bool {
    forall|m: int|
        0 <= m < regions.len() ==> is_seed_region(#[trigger] regions[m], es, sprites, hist, sc, stc)
            || exists|i: int| 0 <= i < es.len() && in_set[i] && regions[m] == cur_box(es, sprites, i)
}

/// All seed regions have been registered.
pub open spec fn seeds_in(
    regions: Seq<Rect>,
    es: Seq<PlacedEntity>,
    sprites: Seq<Sprite>,
    hist: FrameHistoryStore,
    sc: Seq<bool>,
    stc: Seq<bool>,
) -> bool {
    &&& forall|i: int|
        0 <= i < es.len() && directly_dirty(#[trigger] es[i], hist, sc, stc) ==> region_contains(
            regions,
            cur_box(es, sprites, i),
        )
    &&& forall|i: int|
        0 <= i < es.len() && directly_dirty(#[trigger] es[i], hist, sc, stc) && hist.contains_id(
            es[i].id,
        ) ==> region_contains(regions, spec_snap_bbox(hist.snap_of(es[i].id)))
    &&& forall|k: int|
        0 <= k < hist.entries@.len() && !live(es, (#[trigger] hist.entries@[k]).0)
            ==> region_contains(regions, spec_snap_bbox(hist.entries@[k].1))
}

/// Every entity already in the working set has its current bounding box
/// registered as an affected region.
pub open spec fn member_boxes_in(
    regions: Seq<Rect>,
    es: Seq<PlacedEntity>,
    sprites: Seq<Sprite>,
    in_set: Seq<bool>,
) -> bool {
    forall|i: int|
        0 <= i < es.len() && (#[trigger] in_set[i]) ==> region_contains(
            regions,
            cur_box(es, sprites, i),
        )
}

/// No entity outside the working set touches any affected region: the fixed
/// point has been reached.
pub open spec fn all_clean(
    regions: Seq<Rect>,
    es: Seq<PlacedEntity>,
    sprites: Seq<Sprite>,
    in_set: Seq<bool>,
) -> bool {
    forall|j: int, m: int|
        #![trigger in_set[j], regions[m]]
        0 <= j < es.len() && !in_set[j] && 0 <= m < regions.len() ==> !cur_box(
            es,
            sprites,
            j,
        ).overlaps(regions[m])
}

/// The clear rectangles contributed by the first `k` history entries whose
/// entity is no longer live, in first-seen order.
pub open spec fn despawn_clears(hist: FrameHistoryStore, es: Seq<PlacedEntity>, k: int) -> Seq<
    Rect,
>
    decreases k,
{
    if k <= 0 {
        Seq::empty()
    } else {
        despawn_clears(hist, es, k - 1) + (if !live(es, hist.entries@[k - 1].0) {
            seq![spec_snap_bbox(hist.entries@[k - 1].1)]
        } else {
            Seq::empty()
        })
    }
}

/// The old-bounding-box clears contributed by the first `k` entities that
/// are directly dirty and have a snapshot, in scene order.
pub open spec fn dirty_clears(
    es: Seq<PlacedEntity>,
    sprites: Seq<Sprite>,
    hist: FrameHistoryStore,
    sc: Seq<bool>,
    stc: Seq<bool>,
    k: int,
) -> Seq<Rect>
    decreases k,
{
    if k <= 0 {
        Seq::empty()
    } else {
        dirty_clears(es, sprites, hist, sc, stc, k - 1) + (if directly_dirty(
            es[k - 1],
            hist,
            sc,
            stc,
        ) && hist.contains_id(es[k - 1].id) {
            seq![spec_snap_bbox(hist.snap_of(es[k - 1].id))]
        } else {
            Seq::empty()
        })
    }
}

/// What the resolver guarantees of its output: the redraw list holds
/// distinct live indices; every directly-dirty entity is in it; entities
/// left out overlap no seed region and no scheduled entity's bounding box;
/// the clear list is exactly the despawn boxes followed by the dirty
/// entities' old boxes; and a quiet scene yields nothing at all.
pub open spec fn resolve_post(
    es: Seq<PlacedEntity>,
    sprites: Seq<Sprite>,
    hist: FrameHistoryStore,
    sc: Seq<bool>,
    stc: Seq<bool>,
    redraw: Seq<usize>,
    clears: Seq<Rect>,
) -> bool {
    &&& forall|k: int| 0 <= k < redraw.len() ==> (#[trigger] redraw[k]) < es.len()
    &&& forall|k1: int, k2: int|
        0 <= k1 < k2 < redraw.len() ==> (#[trigger] redraw[k1]) != (#[trigger] redraw[k2])
    &&& forall|i: int|
        0 <= i < es.len() && directly_dirty(#[trigger] es[i], hist, sc, stc) ==> in_list(redraw, i)
    &&& forall|j: int, i: int|
        #![trigger cur_box(es, sprites, j), directly_dirty(es[i], hist, sc, stc)]
        0 <= j < es.len() && !in_list(redraw, j) && 0 <= i < es.len() && directly_dirty(
            es[i],
            hist,
            sc,
            stc,
        ) ==> !cur_box(es, sprites, j).overlaps(cur_box(es, sprites, i)) && (hist.contains_id(
            es[i].id,
        ) ==> !cur_box(es, sprites, j).overlaps(spec_snap_bbox(hist.snap_of(es[i].id))))
    &&& forall|j: int, k: int|
        #![trigger cur_box(es, sprites, j), hist.entries@[k]]
        0 <= j < es.len() && !in_list(redraw, j) && 0 <= k < hist.entries@.len() && !live(
            es,
            hist.entries@[k].0,
        ) ==> !cur_box(es, sprites, j).overlaps(spec_snap_bbox(hist.entries@[k].1))
    &&& forall|j: int, k: int|
        #![trigger cur_box(es, sprites, j), redraw[k]]
        0 <= j < es.len() && !in_list(redraw, j) && 0 <= k < redraw.len() ==> !cur_box(
            es,
            sprites,
            j,
        ).overlaps(cur_box(es, sprites, redraw[k] as int))
    &&& clears == despawn_clears(hist, es, hist.entries@.len() as int) + dirty_clears(
        es,
        sprites,
        hist,
        sc,
        stc,
        es.len() as int,
    )
    &&& quiet(es, hist, sc, stc) ==> redraw.len() == 0 && clears.len() == 0
}

/// The per-frame output of the resolver: the entities to repaint (indices
/// into the live-entity table) and the rectangles to clear first.
pub struct RedrawSet {
    pub redraw: Vec<usize>,
    pub clears: Vec<Rect>,
}

/// Computes the current bounding box of the entity at index `i`.
pub fn entity_box(entities: &Vec<PlacedEntity>, sprites: &Vec<Sprite>, i: usize) -> (r: Rect)
    requires
        i < entities@.len(),
        entities@[i as int].sprite < sprites@.len(),
    ensures
        r == cur_box(entities@, sprites@, i as int),
{
    let e = entities[i];
    let sp = &sprites[e.sprite];
    bbox(e.position, sp.width, sp.height)
}

/// Growing the region list preserves every membership fact, and the pushed
/// rectangle becomes a member.
pub proof fn lemma_region_push(pre: Seq<Rect>, r: Rect)
    ensures
        region_contains(pre.push(r), r),
        forall|x: Rect| #[trigger] region_contains(pre, x) ==> region_contains(pre.push(r), x),
{
    assert(pre.push(r)[pre.len() as int] == r);
    assert forall|x: Rect| #[trigger] region_contains(pre, x) implies region_contains(
        pre.push(r),
        x,
    ) by {
        let m = choose|m: int| 0 <= m < pre.len() && (#[trigger] pre[m]) == x;
        assert(pre.push(r)[m] == x);
    }
}

/// Pushing a justified rectangle preserves soundness of the region list.
pub proof fn lemma_sound_push(
    pre: Seq<Rect>,
    r: Rect,
    es: Seq<PlacedEntity>,
    sps: Seq<Sprite>,
    hist: FrameHistoryStore,
    sc: Seq<bool>,
    stc: Seq<bool>,
    set: Seq<bool>,
)
    requires
        regions_sound(pre, es, sps, hist, sc, stc, set),
        is_seed_region(r, es, sps, hist, sc, stc) || exists|i: int|
            0 <= i < es.len() && set[i] && r == cur_box(es, sps, i),
    ensures
        regions_sound(pre.push(r), es, sps, hist, sc, stc, set),
{
    let post = pre.push(r);
    assert forall|m: int| 0 <= m < post.len() implies is_seed_region(
        #[trigger] post[m],
        es,
        sps,
        hist,
        sc,
        stc,
    ) || exists|i: int| 0 <= i < es.len() && set[i] && post[m] == cur_box(es, sps, i) by {
        if m < pre.len() {
            assert(post[m] == pre[m]);
        } else {
            assert(post[m] == r);
        }
    }
}

/// Turning on one working-set entry preserves soundness: the justification
/// set only grows.
pub proof fn lemma_sound_set_true(
    regions: Seq<Rect>,
    es: Seq<PlacedEntity>,
    sps: Seq<Sprite>,
    hist: FrameHistoryStore,
    sc: Seq<bool>,
    stc: Seq<bool>,
    set: Seq<bool>,
    j: int,
)
    requires
        regions_sound(regions, es, sps, hist, sc, stc, set),
        0 <= j < set.len(),
        set.len() == es.len(),
    ensures
        regions_sound(regions, es, sps, hist, sc, stc, set.update(j, true)),
{
    let upd = set.update(j, true);
    assert forall|m: int| 0 <= m < regions.len() implies is_seed_region(
        #[trigger] regions[m],
        es,
        sps,
        hist,
        sc,
        stc,
    ) || exists|i: int| 0 <= i < es.len() && upd[i] && regions[m] == cur_box(es, sps, i) by {
        if !is_seed_region(regions[m], es, sps, hist, sc, stc) {
            let i = choose|i: int|
                0 <= i < es.len() && set[i] && regions[m] == cur_box(es, sps, i);
            assert(upd[i]);
        }
    }
}

/// Registered member boxes stay registered when the region list grows.
pub proof fn lemma_member_push(
    regions: Seq<Rect>,
    r: Rect,
    es: Seq<PlacedEntity>,
    sps: Seq<Sprite>,
    set: Seq<bool>,
)
    requires
        member_boxes_in(regions, es, sps, set),
    ensures
        member_boxes_in(regions.push(r), es, sps, set),
{
    lemma_region_push(regions, r);
    assert forall|i: int| 0 <= i < es.len() && (#[trigger] set[i]) implies region_contains(
        regions.push(r),
        cur_box(es, sps, i),
    ) by {
        assert(region_contains(regions, cur_box(es, sps, i)));
    }
}

/// Turning on an entry whose current box is already registered keeps every
/// member box registered.
pub proof fn lemma_member_update(
    regions: Seq<Rect>,
    es: Seq<PlacedEntity>,
    sps: Seq<Sprite>,
    set: Seq<bool>,
    j: int,
)
    requires
        member_boxes_in(regions, es, sps, set),
        region_contains(regions, cur_box(es, sps, j)),
        0 <= j < set.len(),
        set.len() == es.len(),
    ensures
        member_boxes_in(regions, es, sps, set.update(j, true)),
{
    let upd = set.update(j, true);
    assert forall|i: int| 0 <= i < es.len() && (#[trigger] upd[i]) implies region_contains(
        regions,
        cur_box(es, sps, i),
    ) by {
        if i != j {
            assert(set[i]);
        }
    }
}

/// Registered seed regions stay registered when the region list grows.
pub proof fn lemma_seeds_push(
    regions: Seq<Rect>,
    r: Rect,
    es: Seq<PlacedEntity>,
    sps: Seq<Sprite>,
    hist: FrameHistoryStore,
    sc: Seq<bool>,
    stc: Seq<bool>,
)
    requires
        seeds_in(regions, es, sps, hist, sc, stc),
    ensures
        seeds_in(regions.push(r), es, sps, hist, sc, stc),
{
    lemma_region_push(regions, r);
    let post = regions.push(r);
    assert forall|i: int|
        0 <= i < es.len() && directly_dirty(#[trigger] es[i], hist, sc, stc) implies region_contains(
        post,
        cur_box(es, sps, i),
    ) by {
        assert(region_contains(regions, cur_box(es, sps, i)));
    }
    assert forall|i: int|
        0 <= i < es.len() && directly_dirty(#[trigger] es[i], hist, sc, stc) && hist.contains_id(
            es[i].id,
        ) implies region_contains(post, spec_snap_bbox(hist.snap_of(es[i].id))) by {
        assert(region_contains(regions, spec_snap_bbox(hist.snap_of(es[i].id))));
    }
    assert forall|k: int|
        0 <= k < hist.entries@.len() && !live(es, (#[trigger] hist.entries@[k]).0) implies region_contains(
        post,
        spec_snap_bbox(hist.entries@[k].1),
    ) by {
        assert(region_contains(regions, spec_snap_bbox(hist.entries@[k].1)));
    }
}

/// Decides whether an entity with this id is live in the scene.
pub fn is_live(entities: &Vec<PlacedEntity>, id: u64) -> (b: bool)
    ensures
        b == live(entities@, id),
{
    let mut li: usize = 0;
    while li < entities.len()
        invariant
            0 <= li <= entities@.len(),
            forall|j: int| 0 <= j < li ==> (#[trigger] entities@[j]).id != id,
        decreases entities@.len() - li,
    {
        if entities[li].id == id {
            proof {
                assert(entities@[li as int].id == id);
            }
            return true;
        }
        li += 1;
    }
    false
}

/// Decides whether `r` overlaps any rectangle in the list.
fn overlaps_any(r: &Rect, regions: &Vec<Rect>) -> (b: bool)
    ensures
        b == exists|m: int| 0 <= m < regions@.len() && r.overlaps(#[trigger] regions@[m]),
{
    let mut m: usize = 0;
    while m < regions.len()
        invariant
            0 <= m <= regions@.len(),
            forall|j: int| 0 <= j < m ==> !r.overlaps(#[trigger] regions@[j]),
        decreases regions@.len() - m,
    {
        if rects_overlap(r, &regions[m]) {
            proof {
                assert(r.overlaps(regions@[m as int]));
            }
            return true;
        }
        m += 1;
    }
    false
}

/// Diffs the scene against the frame history and produces the redraw set:
/// directly-dirty entities seed the affected regions with their old and new
/// bounding boxes, despawned entities contribute clear-only regions, and
/// repaints propagate to every entity whose bounding box touches an
/// affected region, transitively, until a fixed point is reached.
#[verifier::rlimit(30)]
pub fn resolve(
    entities: &Vec<PlacedEntity>,
    sprites: &Vec<Sprite>,
    history: &FrameHistoryStore,
    sprite_changed: &Vec<bool>,
    style_changed: &Vec<bool>,
) -> (out: RedrawSet)
    requires
        history.wf(),
        inputs_ok(entities@, sprites@.len() as int, sprite_changed@.len() as int,
            style_changed@.len() as int),
    ensures
        resolve_post(
            entities@,
            sprites@,
            *history,
            sprite_changed@,
            style_changed@,
            out.redraw@,
            out.clears@,
        ),
{
    let ghost es = entities@;
    let ghost sps = sprites@;
    let ghost hist = *history;
    let ghost sc = sprite_changed@;
    let ghost stc = style_changed@;
    let n = entities.len();

    let mut in_set: Vec<bool> = Vec::new();
    let mut i: usize = 0;
    while i < n
        invariant
            0 <= i <= n,
            in_set@.len() == i,
            forall|j: int| 0 <= j < i ==> !(#[trigger] in_set@[j]),
        decreases n - i,
    {
        in_set.push(false);
        i += 1;
    }

    let mut regions: Vec<Rect> = Vec::new();
    let mut clears: Vec<Rect> = Vec::new();

    // Clear-only regions for entities despawned since the last frame.
    let mut k: usize = 0;
    while k < history.len()
        invariant
            0 <= k <= hist.entries@.len(),
            hist == *history,
            es == entities@,
            n == es.len(),
            in_set@.len() == n,
            forall|j: int| 0 <= j < n ==> !(#[trigger] in_set@[j]),
            clears@ == despawn_clears(hist, es, k as int),
            regions@ == clears@,
            forall|m: int|
                0 <= m < regions@.len() ==> is_seed_region(
                    #[trigger] regions@[m],
                    es,
                    sps,
                    hist,
                    sc,
                    stc,
                ),
            forall|kk: int|
                0 <= kk < k && !live(es, (#[trigger] hist.entries@[kk]).0) ==> region_contains(
                    regions@,
                    spec_snap_bbox(hist.entries@[kk].1),
                ),
            quiet(es, hist, sc, stc) ==> regions@.len() == 0 && clears@.len() == 0,
        decreases hist.entries@.len() - k,
    {
        let (id, snap) = history.get(k);
        let found = is_live(entities, id);
        if !found {
            let r = bbox(snap.position, snap.width, snap.height);
            let ghost old_regions = regions@;
            regions.push(r);
            clears.push(r);
            proof {
                assert(r == spec_snap_bbox(hist.entries@[k as int].1));
                assert(!live(es, hist.entries@[k as int].0));
                assert(clears@ =~= despawn_clears(hist, es, k as int + 1));
                assert(regions@ =~= clears@);
                assert(is_seed_region(r, es, sps, hist, sc, stc));
                lemma_region_push(old_regions, r);
                assert(regions@ == old_regions.push(r));
                assert forall|m: int| 0 <= m < regions@.len() implies is_seed_region(
                    #[trigger] regions@[m],
                    es,
                    sps,
                    hist,
                    sc,
                    stc,
                ) by {
                    if m < old_regions.len() {
                        assert(regions@[m] == old_regions[m]);
                    } else {
                        assert(regions@[m] == r);
                    }
                }
                assert forall|kk: int|
                    0 <= kk < k + 1 && !live(es, (#[trigger] hist.entries@[kk]).0) implies region_contains(
                    regions@,
                    spec_snap_bbox(hist.entries@[kk].1),
                ) by {
                    if kk < k as int {
                        assert(region_contains(old_regions, spec_snap_bbox(hist.entries@[kk].1)));
                    } else {
                        assert(region_contains(regions@, r));
                    }
                }
            }
        } else {
            proof {
                assert(clears@ =~= despawn_clears(hist, es, k as int + 1));
            }
        }
        k += 1;
    }

    // Directly-dirty entities: schedule them and seed their old and new
    // bounding boxes.
    let ghost despawn_all = despawn_clears(hist, es, hist.entries@.len() as int);
    let mut i: usize = 0;
    while i < n
        invariant
            0 <= i <= n,
            hist == *history,
            history.wf(),
            es == entities@,
            sps == sprites@,
            sc == sprite_changed@,
            stc == style_changed@,
            n == es.len(),
            inputs_ok(es, sps.len() as int, sc.len() as int, stc.len() as int),
            in_set@.len() == n,
            despawn_all == despawn_clears(hist, es, hist.entries@.len() as int),
            clears@ == despawn_all + dirty_clears(es, sps, hist, sc, stc, i as int),
            forall|j: int| i <= j < n ==> !(#[trigger] in_set@[j]),
            forall|j: int|
                0 <= j < i ==> ((#[trigger] in_set@[j]) == directly_dirty(es[j], hist, sc, stc)),
            regions_sound(regions@, es, sps, hist, sc, stc, in_set@),
            member_boxes_in(regions@, es, sps, in_set@),
            forall|kk: int|
                0 <= kk < hist.entries@.len() && !live(es, (#[trigger] hist.entries@[kk]).0)
                    ==> region_contains(regions@, spec_snap_bbox(hist.entries@[kk].1)),
            forall|j: int|
                0 <= j < i && directly_dirty(#[trigger] es[j], hist, sc, stc) ==> region_contains(
                    regions@,
                    cur_box(es, sps, j),
                ),
            forall|j: int|
                0 <= j < i && directly_dirty(#[trigger] es[j], hist, sc, stc) && hist.contains_id(
                    es[j].id,
                ) ==> region_contains(regions@, spec_snap_bbox(hist.snap_of(es[j].id))),
            quiet(es, hist, sc, stc) ==> regions@.len() == 0 && clears@.len() == 0 && (forall|
                j: int,
            | 0 <= j < n ==> !(#[trigger] in_set@[j])),
        decreases n - i,
    {
        let e = entities[i];
        let obs = history.observe(e.id);
        let dirty: bool = match obs {
            None => true,
            Some(s) => {
                !(s.position == e.position && s.sprite == e.sprite && s.style == e.style
                    && s.visibility == e.visibility) || sprite_changed[e.sprite]
                    || style_changed[e.style]
            },
        };
        proof {
            assert(e == es[i as int]);
            assert(dirty == directly_dirty(es[i as int], hist, sc, stc));
        }
        if dirty {
            let ghost pre_r0 = regions@;
            let ghost pre_s = in_set@;
            in_set[i] = true;
            match obs {
                Some(s) => {
                    let ob = bbox(s.position, s.width, s.height);
                    regions.push(ob);
                    clears.push(ob);
                    proof {
                        assert(s == hist.snap_of(es[i as int].id));
                        assert(is_seed_region(ob, es, sps, hist, sc, stc));
                        lemma_sound_push(pre_r0, ob, es, sps, hist, sc, stc, pre_s);
                        lemma_member_push(pre_r0, ob, es, sps, pre_s);
                        lemma_region_push(pre_r0, ob);
                    }
                },
                None => {},
            }
            let ghost pre_r1 = regions@;
            let nb = entity_box(entities, sprites, i);
            regions.push(nb);
            proof {
                let post = regions@;
                assert(post == pre_r1.push(nb));
                assert(in_set@ == pre_s.update(i as int, true));
                assert(directly_dirty(es[i as int], hist, sc, stc));
                assert(!quiet(es, hist, sc, stc));
                assert(is_seed_region(nb, es, sps, hist, sc, stc));
                assert(regions_sound(pre_r1, es, sps, hist, sc, stc, pre_s));
                lemma_sound_push(pre_r1, nb, es, sps, hist, sc, stc, pre_s);
                lemma_sound_set_true(post, es, sps, hist, sc, stc, pre_s, i as int);
                lemma_member_push(pre_r1, nb, es, sps, pre_s);
                lemma_region_push(pre_r1, nb);
                lemma_member_update(post, es, sps, pre_s, i as int);
                assert forall|jj: int|
                    0 <= jj < i + 1 && directly_dirty(#[trigger] es[jj], hist, sc, stc) implies region_contains(
                    post,
                    cur_box(es, sps, jj),
                ) by {
                    if jj < i as int {
                        assert(region_contains(pre_r0, cur_box(es, sps, jj)));
                        assert(region_contains(pre_r1, cur_box(es, sps, jj)));
                    } else {
                        assert(region_contains(post, nb));
                    }
                }
                assert forall|jj: int|
                    0 <= jj < i + 1 && directly_dirty(#[trigger] es[jj], hist, sc, stc)
                        && hist.contains_id(es[jj].id) implies region_contains(
                    post,
                    spec_snap_bbox(hist.snap_of(es[jj].id)),
                ) by {
                    if jj < i as int {
                        assert(region_contains(pre_r0, spec_snap_bbox(hist.snap_of(es[jj].id))));
                        assert(region_contains(pre_r1, spec_snap_bbox(hist.snap_of(es[jj].id))));
                    } else {
                        assert(region_contains(pre_r1, spec_snap_bbox(hist.snap_of(es[jj].id))));
                    }
                }
                assert forall|kk: int|
                    0 <= kk < hist.entries@.len() && !live(
                        es,
                        (#[trigger] hist.entries@[kk]).0,
                    ) implies region_contains(post, spec_snap_bbox(hist.entries@[kk].1)) by {
                    assert(region_contains(pre_r0, spec_snap_bbox(hist.entries@[kk].1)));
                    assert(region_contains(pre_r1, spec_snap_bbox(hist.entries@[kk].1)));
                }
                assert(clears@ =~= despawn_all + dirty_clears(es, sps, hist, sc, stc, i as int
                    + 1));
            }
        } else {
            proof {
                assert(clears@ =~= despawn_all + dirty_clears(es, sps, hist, sc, stc, i as int
                    + 1));
            }
        }
        i += 1;
    }

    // Fixed point: pull in every entity whose bounding box touches an
    // affected region, registering its own box as affected in turn.
    let mut changed = true;
    while changed
        invariant
            hist == *history,
            history.wf(),
            es == entities@,
            sps == sprites@,
            sc == sprite_changed@,
            stc == style_changed@,
            n == es.len(),
            inputs_ok(es, sps.len() as int, sc.len() as int, stc.len() as int),
            in_set@.len() == n,
            clears@ == despawn_all + dirty_clears(es, sps, hist, sc, stc, n as int),
            despawn_all == despawn_clears(hist, es, hist.entries@.len() as int),
            forall|j: int|
                0 <= j < n && directly_dirty(#[trigger] es[j], hist, sc, stc) ==> in_set@[j],
            regions_sound(regions@, es, sps, hist, sc, stc, in_set@),
            member_boxes_in(regions@, es, sps, in_set@),
            seeds_in(regions@, es, sps, hist, sc, stc),
            !changed ==> all_clean(regions@, es, sps, in_set@),
            quiet(es, hist, sc, stc) ==> regions@.len() == 0 && clears@.len() == 0 && (forall|
                j: int,
            | 0 <= j < n ==> !(#[trigger] in_set@[j])),
        decreases count_unset(in_set@) + (if changed {
            1int
        } else {
            0int
        }),
    {
        changed = false;
        let mut j: usize = 0;
        let ghost loop_in_set = in_set@;
        while j < n
            invariant
                0 <= j <= n,
                hist == *history,
                history.wf(),
                es == entities@,
                sps == sprites@,
                sc == sprite_changed@,
                stc == style_changed@,
                n == es.len(),
                inputs_ok(es, sps.len() as int, sc.len() as int, stc.len() as int),
                in_set@.len() == n,
                forall|jj: int|
                    0 <= jj < n && directly_dirty(#[trigger] es[jj], hist, sc, stc)
                        ==> in_set@[jj],
                regions_sound(regions@, es, sps, hist, sc, stc, in_set@),
                member_boxes_in(regions@, es, sps, in_set@),
                seeds_in(regions@, es, sps, hist, sc, stc),
                loop_in_set.len() == n,
                forall|jj: int| 0 <= jj < n && loop_in_set[jj] ==> (#[trigger] in_set@[jj]),
                count_unset(in_set@) <= count_unset(loop_in_set),
                changed ==> count_unset(in_set@) < count_unset(loop_in_set),
                !changed ==> in_set@ == loop_in_set,
                !changed ==> forall|jj: int, m: int|
                    #![trigger in_set@[jj], regions@[m]]
                    0 <= jj < j && !in_set@[jj] && 0 <= m < regions@.len() ==> !cur_box(
                        es,
                        sps,
                        jj,
                    ).overlaps(regions@[m]),
                quiet(es, hist, sc, stc) ==> regions@.len() == 0 && clears@.len() == 0 && (forall|
                    jj: int,
                | 0 <= jj < n ==> !(#[trigger] in_set@[jj])),
            decreases n - j,
        {
            if !in_set[j] {
                let cb = entity_box(entities, sprites, j);
                if overlaps_any(&cb, &regions) {
                    let ghost pre_r = regions@;
                    let ghost pre_s = in_set@;
                    in_set[j] = true;
                    regions.push(cb);
                    changed = true;
                    proof {
                        lemma_count_unset_set_true(pre_s, j as int);
                        assert(in_set@ == pre_s.update(j as int, true));
                        assert(regions@ == pre_r.push(cb));
                        assert(pre_r.len() > 0);
                        assert(!quiet(es, hist, sc, stc));
                        lemma_region_push(pre_r, cb);
                        lemma_sound_set_true(pre_r, es, sps, hist, sc, stc, pre_s, j as int);
                        assert(in_set@[j as int] && cb == cur_box(es, sps, j as int));
                        lemma_sound_push(pre_r, cb, es, sps, hist, sc, stc, in_set@);
                        lemma_member_push(pre_r, cb, es, sps, pre_s);
                        lemma_member_update(regions@, es, sps, pre_s, j as int);
                        lemma_seeds_push(pre_r, cb, es, sps, hist, sc, stc);
                    }
                }
            }
            j += 1;
        }
    }

    // Collect the working set into the redraw list, in scene order.
    let mut redraw: Vec<usize> = Vec::new();
    let mut i: usize = 0;
    while i < n
        invariant
            0 <= i <= n,
            in_set@.len() == n,
            forall|k2: int| 0 <= k2 < redraw@.len() ==> (#[trigger] redraw@[k2]) < i,
            forall|k1: int, k2: int|
                0 <= k1 < k2 < redraw@.len() ==> (#[trigger] redraw@[k1]) < (
                #[trigger] redraw@[k2]),
            forall|j: int| #![trigger in_set@[j]] 0 <= j < i ==> (in_list(redraw@, j) == in_set@[j]),
            (forall|j: int| 0 <= j < n ==> !(#[trigger] in_set@[j])) ==> redraw@.len() == 0,
        decreases n - i,
    {
        if in_set[i] {
            let ghost pre = redraw@;
            redraw.push(i);
            proof {
                assert(redraw@[pre.len() as int] as int == i as int);
                assert forall|j: int| 0 <= j < i + 1 implies (in_list(redraw@, j) == in_set@[j]) by {
                    if j < i as int {
                        if in_list(redraw@, j) {
                            let kk = choose|kk: int|
                                0 <= kk < redraw@.len() && (#[trigger] redraw@[kk]) as int == j;
                            assert(kk < pre.len());
                            assert(pre[kk] as int == j);
                        }
                        if in_set@[j] {
                            let kk = choose|kk: int|
                                0 <= kk < pre.len() && (#[trigger] pre[kk]) as int == j;
                            assert(redraw@[kk] as int == j);
                        }
                    } else {
                        assert(in_list(redraw@, i as int));
                    }
                }
            }
        } else {
            proof {
                assert forall|j: int| 0 <= j < i + 1 implies (in_list(redraw@, j) == in_set@[j]) by {
                }
            }
        }
        i += 1;
    }

    let out = RedrawSet { redraw, clears };
    proof {
        let rd = out.redraw@;
        let cl = out.clears@;
        assert forall|j: int, i2: int|
            #![trigger cur_box(es, sps, j), directly_dirty(es[i2], hist, sc, stc)]
            0 <= j < es.len() && !in_list(rd, j) && 0 <= i2 < es.len() && directly_dirty(
                es[i2],
                hist,
                sc,
                stc,
            ) implies !cur_box(es, sps, j).overlaps(cur_box(es, sps, i2)) && (hist.contains_id(
            es[i2].id,
        ) ==> !cur_box(es, sps, j).overlaps(spec_snap_bbox(hist.snap_of(es[i2].id)))) by {
            assert(!in_set@[j]);
            let r1 = cur_box(es, sps, i2);
            let m1 = choose|m: int| 0 <= m < regions@.len() && (#[trigger] regions@[m]) == r1;
            assert(!cur_box(es, sps, j).overlaps(regions@[m1]));
            if hist.contains_id(es[i2].id) {
                let r2 = spec_snap_bbox(hist.snap_of(es[i2].id));
                let m2 = choose|m: int| 0 <= m < regions@.len() && (#[trigger] regions@[m]) == r2;
                assert(!cur_box(es, sps, j).overlaps(regions@[m2]));
            }
        }
        assert forall|j: int, k2: int|
            #![trigger cur_box(es, sps, j), hist.entries@[k2]]
            0 <= j < es.len() && !in_list(rd, j) && 0 <= k2 < hist.entries@.len() && !live(
                es,
                hist.entries@[k2].0,
            ) implies !cur_box(es, sps, j).overlaps(spec_snap_bbox(hist.entries@[k2].1)) by {
            assert(!in_set@[j]);
            let r1 = spec_snap_bbox(hist.entries@[k2].1);
            let m1 = choose|m: int| 0 <= m < regions@.len() && (#[trigger] regions@[m]) == r1;
            assert(!cur_box(es, sps, j).overlaps(regions@[m1]));
        }
        assert forall|j: int, k2: int|
            #![trigger cur_box(es, sps, j), rd[k2]]
            0 <= j < es.len() && !in_list(rd, j) && 0 <= k2 < rd.len() implies !cur_box(
            es,
            sps,
            j,
        ).overlaps(cur_box(es, sps, rd[k2] as int)) by {
            assert(!in_set@[j]);
            assert(in_list(rd, rd[k2] as int));
            assert(in_set@[rd[k2] as int]);
            let r1 = cur_box(es, sps, rd[k2] as int);
            let m1 = choose|m: int| 0 <= m < regions@.len() && (#[trigger] regions@[m]) == r1;
            assert(!cur_box(es, sps, j).overlaps(regions@[m1]));
        }
        if quiet(es, hist, sc, stc) {
            assert(cl.len() == 0);
            assert(rd.len() == 0);
        }
    }
    out
}

/// How many entries of the working set are still unset.
pub open spec fn count_unset(s: Seq<bool>) -> nat
    decreases s.len(),
{
    if s.len() == 0 {
        0
    } else {
        count_unset(s.drop_last()) + (if s.last() {
            0nat
        } else {
            1nat
        })
    }
}

/// Setting one unset entry decreases the number of unset entries by one.
pub proof fn lemma_count_unset_set_true(s: Seq<bool>, j: int)
    requires
        0 <= j < s.len(),
        !s[j],
    ensures
        count_unset(s) == count_unset(s.update(j, true)) + 1,
    decreases s.len(),
{
    if s.len() > 0 {
        if j == s.len() - 1 {
            assert(s.update(j, true).drop_last() =~= s.drop_last());
        } else {
            lemma_count_unset_set_true(s.drop_last(), j);
            assert(s.update(j, true).drop_last() =~= s.drop_last().update(j, true));
        }
    }
}


/// The despawn clear list contains the box of every history entry whose
/// entity is no longer live.
pub proof fn lemma_despawn_clears_contains(
    hist: FrameHistoryStore,
    es: Seq<PlacedEntity>,
    k: int,
    n: int,
)
    requires
        0 <= k < n <= hist.entries@.len(),
        !live(es, hist.entries@[k].0),
    ensures
        region_contains(despawn_clears(hist, es, n), spec_snap_bbox(hist.entries@[k].1)),
    decreases n,
{
    if k == n - 1 {
        let s = despawn_clears(hist, es, n);
        assert(s[s.len() - 1] == spec_snap_bbox(hist.entries@[k].1));
    } else {
        lemma_despawn_clears_contains(hist, es, k, n - 1);
        let pre = despawn_clears(hist, es, n - 1);
        let m = choose|m: int|
            0 <= m < pre.len() && (#[trigger] pre[m]) == spec_snap_bbox(hist.entries@[k].1);
        assert(despawn_clears(hist, es, n)[m] == pre[m]);
    }
}

/// Despawning an entity schedules one final clear of its last bounding
/// box, and the entity never appears in the redraw set: a despawned id is
/// not a live id, and the redraw set only names live entities.
pub proof fn lemma_despawn_cleared_and_forgotten(
    es: Seq<PlacedEntity>,
    sps: Seq<Sprite>,
    hist: FrameHistoryStore,
    sc: Seq<bool>,
    stc: Seq<bool>,
    redraw: Seq<usize>,
    clears: Seq<Rect>,
    k: int,
)
    requires
        resolve_post(es, sps, hist, sc, stc, redraw, clears),
        0 <= k < hist.entries@.len(),
        !live(es, hist.entries@[k].0),
    ensures
        region_contains(clears, spec_snap_bbox(hist.entries@[k].1)),
        forall|j: int|
            0 <= j < redraw.len() ==> es[(#[trigger] redraw[j]) as int].id != hist.entries@[k].0,
{
    lemma_despawn_clears_contains(hist, es, k, hist.entries@.len() as int);
    let dsp = despawn_clears(hist, es, hist.entries@.len() as int);
    let m = choose|m: int|
        0 <= m < dsp.len() && (#[trigger] dsp[m]) == spec_snap_bbox(hist.entries@[k].1);
    assert(clears[m] == dsp[m]);
    assert forall|j: int|
        0 <= j < redraw.len() implies es[(#[trigger] redraw[j]) as int].id
        != hist.entries@[k].0 by {
        if es[redraw[j] as int].id == hist.entries@[k].0 {
            assert((redraw[j] as int) < es.len());
            assert(es[redraw[j] as int].id == hist.entries@[k].0);
            assert(live(es, hist.entries@[k].0));
        }
    }
}

/// Redraw propagates transitively through overlapping geometry: a dirty
/// entity `a` whose old bounding box overlaps unchanged entity `b` forces
/// `b` into the redraw set, and `b` in turn forces any entity `c` whose box
/// overlaps `b`'s, even though neither `b` nor `c` changed.
pub proof fn lemma_transitive_overlap(
    es: Seq<PlacedEntity>,
    sps: Seq<Sprite>,
    hist: FrameHistoryStore,
    sc: Seq<bool>,
    stc: Seq<bool>,
    redraw: Seq<usize>,
    clears: Seq<Rect>,
    a: int,
    b: int,
    c: int,
)
    requires
        resolve_post(es, sps, hist, sc, stc, redraw, clears),
        0 <= a < es.len(),
        0 <= b < es.len(),
        0 <= c < es.len(),
        directly_dirty(es[a], hist, sc, stc),
        hist.contains_id(es[a].id),
        spec_snap_bbox(hist.snap_of(es[a].id)).overlaps(cur_box(es, sps, b)),
        cur_box(es, sps, b).overlaps(cur_box(es, sps, c)),
    ensures
        in_list(redraw, a),
        in_list(redraw, b),
        in_list(redraw, c),
{
    assert(directly_dirty(es[a], hist, sc, stc));
    assert(in_list(redraw, a));
    if !in_list(redraw, b) {
        let r = spec_snap_bbox(hist.snap_of(es[a].id));
        crate::rect::lemma_overlaps_symmetric(r, cur_box(es, sps, b));
        assert(!cur_box(es, sps, b).overlaps(r));
        assert(false);
    }
    if !in_list(redraw, c) {
        let kb = choose|k: int| 0 <= k < redraw.len() && (#[trigger] redraw[k]) as int == b;
        crate::rect::lemma_overlaps_symmetric(cur_box(es, sps, b), cur_box(es, sps, c));
        assert(!cur_box(es, sps, c).overlaps(cur_box(es, sps, redraw[kb] as int)));
        assert(false);
    }
}

} // verus!
