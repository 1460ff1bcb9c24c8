//! The regions of a grid and their roles: coasts, uplands with their hazard
//! pools, settlements and foothills.

use crate::distribution::{lookup, CityContentDist, PERCENTILES};
use crate::grid::{cell_at, rectangular};
use crate::random::{
    choose_one, lemma_permuted_same, lemma_permuted_swap, permuted, rearranged, roll_below, shuffle,
};
use crate::roads::{
    blank_plan, chain_step, chaining, exchange, is_chained, is_network, lemma_no_roads,
    lemma_roads_only_pave, roads_laid, Plan,
};
use crate::tile::{
    resolved_terrain, Cell, Content, Paved, PreTileType, TileType, Walkable,
};
use crate::vector2::{adjacent, on_grid, Vector2};
use crate::zone::{
    are_regions, centroid_of, cover, covered, extract, in_category, is_city_of, joined,
    in_reading_order, lemma_component_survives, lemma_cover_is_whole, lemma_region_cells,
    lemma_region_order, linked, read_before,
    painted, segmented, touches, upland_found, voided, whole_regions, within, Mountain, Zone,
    COAST, HAZARD, UPLAND,
};
use rand::rngs::StdRng;
use vstd::prelude::*;

verus! {

/// The upland regions of a list of mountains.
pub open spec fn upland_zones(mountains: Seq<Mountain>) -> Seq<Zone> {
    Seq::new(mountains.len(), |k: int| mountains[k].zone)
}

/// The pools of a list of mountains, those of one mountain after those of the one before.
pub open spec fn all_pools(mountains: Seq<Mountain>) -> Seq<Zone>
    decreases mountains.len(),
{
    if mountains.len() == 0 {
        Seq::empty()
    } else {
        all_pools(mountains.drop_last()) + mountains.last().lava_pools@
    }
}

/// The cells that the mountains of a list have taken: those of their upland
/// regions and of their pools.
pub open spec fn taken(mountains: Seq<Mountain>) -> spec_fn(Vector2) -> bool {
    |p: Vector2| covered(upland_zones(mountains), p) || covered(all_pools(mountains), p)
}

/// The mountain has no category yet, nor have its pools, and each of its pools
/// begins next to its upland region.
pub open spec fn mountain_ok(mountain: Mountain) -> bool {
    &&& mountain.zone.tile == PreTileType::Void
    &&& forall|j: int|
        0 <= j < mountain.lava_pools@.len() ==> (#[trigger] mountain.lava_pools@[j]).tile
            == PreTileType::Void && touches(mountain.zone.inner@, mountain.lava_pools@[j].inner@[0])
}

/// What holds while a grid is scanned for its upland regions, when the cells
/// before row `x`, column `y` have been looked at.
pub open spec fn surveyed(
    before: Seq<Vec<PreTileType>>,
    now: Seq<Vec<PreTileType>>,
    rows: usize,
    columns: usize,
    mountains: Seq<Mountain>,
    x: usize,
    y: usize,
) -> bool {
    &&& rectangular(before, rows, columns)
    &&& rectangular(now, rows, columns)
    &&& are_regions(before, rows, columns, UPLAND, upland_zones(mountains))
    &&& are_regions(before, rows, columns, HAZARD, all_pools(mountains))
    &&& voided(before, now, rows, columns, taken(mountains))
    &&& forall|p: Vector2|
        on_grid(p, rows, columns) && read_before(p, x, y) && #[trigger] in_category(
            before,
            UPLAND,
            p,
        ) ==> covered(upland_zones(mountains), p)
    &&& forall|k: int| 0 <= k < mountains.len() ==> mountain_ok(#[trigger] mountains[k])
    &&& forall|m: Vector2, q: Vector2|
        #[trigger] covered(upland_zones(mountains), m) && on_grid(q, rows, columns)
            && #[trigger] adjacent(m, q) && in_category(before, HAZARD, q) ==> covered(
            all_pools(mountains),
            q,
        )
    &&& in_reading_order(upland_zones(mountains))
    &&& forall|k: int|
        0 <= k < mountains.len() ==> read_before((#[trigger] mountains[k]).zone.inner@[0], x, y)
}

/// The upland regions have been taken out of the grid with their pools: every
/// upland cell belongs to exactly one upland region; the pools are whole
/// hazard regions, each next to the upland region that owns it, and every
/// hazard cell next to an upland cell is in a pool; the cells of all of them
/// have become the placeholder and no other cell has changed.
pub open spec fn uplands_found(
    before: Seq<Vec<PreTileType>>,
    after: Seq<Vec<PreTileType>>,
    rows: usize,
    columns: usize,
    mountains: Seq<Mountain>,
) -> bool {
    &&& rectangular(after, rows, columns)
    &&& are_regions(before, rows, columns, UPLAND, upland_zones(mountains))
    &&& are_regions(before, rows, columns, HAZARD, all_pools(mountains))
    &&& voided(before, after, rows, columns, taken(mountains))
    &&& forall|p: Vector2|
        on_grid(p, rows, columns) ==> (#[trigger] in_category(before, UPLAND, p) <==> covered(
            upland_zones(mountains),
            p,
        ))
    &&& forall|k: int| 0 <= k < mountains.len() ==> mountain_ok(#[trigger] mountains[k])
    &&& forall|m: Vector2, q: Vector2|
        #[trigger] covered(upland_zones(mountains), m) && on_grid(q, rows, columns)
            && #[trigger] adjacent(m, q) && in_category(before, HAZARD, q) ==> covered(
            all_pools(mountains),
            q,
        )
    &&& in_reading_order(upland_zones(mountains))
}

/// What two lists of regions cover together is what one or the other covers.
pub proof fn lemma_cover_joins(a: Seq<Zone>, b: Seq<Zone>, p: Vector2)
    ensures
        covered(a + b, p) <==> covered(a, p) || covered(b, p),
{
    let both = a + b;
    if covered(a, p) {
        let k = choose|k: int| 0 <= k < a.len() && (#[trigger] a[k]).inner@.contains(p);
        assert(both[k].inner@.contains(p));
    }
    if covered(b, p) {
        let k = choose|k: int| 0 <= k < b.len() && (#[trigger] b[k]).inner@.contains(p);
        assert(both[a.len() + k].inner@.contains(p));
    }
    if covered(both, p) {
        let k = choose|k: int| 0 <= k < both.len() && (#[trigger] both[k]).inner@.contains(p);
        if k < a.len() {
            assert(a[k].inner@.contains(p));
        } else {
            assert(b[k - a.len()].inner@.contains(p));
        }
    }
}

/// Two lists of whole regions that share no cell make one list of whole regions.
pub proof fn lemma_regions_join<T: Cell>(
    before: Seq<Vec<T>>,
    rows: usize,
    columns: usize,
    id: usize,
    a: Seq<Zone>,
    b: Seq<Zone>,
)
    requires
        are_regions(before, rows, columns, id, a),
        are_regions(before, rows, columns, id, b),
        forall|p: Vector2| !(covered(a, p) && covered(b, p)),
    ensures
        are_regions(before, rows, columns, id, a + b),
{
    let both = a + b;
    assert forall|k: int| 0 <= k < both.len() implies {
        let region = #[trigger] both[k];
        &&& region.inner@.len() > 0
        &&& region.inner@.no_duplicates()
        &&& region.centroid == centroid_of(region.inner@)
        &&& on_grid(region.inner@[0], rows, columns)
        &&& in_category(before, id, region.inner@[0])
        &&& forall|p: Vector2|
            #[trigger] region.inner@.contains(p) <==> on_grid(p, rows, columns) && linked(
                before,
                rows,
                columns,
                id,
                region.inner@[0],
                p,
            )
    } by {
        if k < a.len() {
            assert(both[k] == a[k]);
        } else {
            assert(both[k] == b[k - a.len()]);
        }
    }
    assert forall|j: int, k: int, p: Vector2|
        0 <= j < k < both.len() && #[trigger] both[j].inner@.contains(p)
            implies !#[trigger] both[k].inner@.contains(p) by {
        if k < a.len() {
            assert(both[j] == a[j] && both[k] == a[k]);
        } else if j >= a.len() {
            assert(both[j] == b[j - a.len()] && both[k] == b[k - a.len()]);
        } else {
            assert(both[j] == a[j] && both[k] == b[k - a.len()]);
            assert(covered(a, p));
            if b[k - a.len()].inner@.contains(p) {
                assert(covered(b, p));
            }
        }
    }
}

/// Regions found in a grid from which whole regions had been taken are whole
/// regions of the grid as it was before.
pub proof fn lemma_regions_carry<T: Cell>(
    before: Seq<Vec<T>>,
    now: Seq<Vec<T>>,
    rows: usize,
    columns: usize,
    id: usize,
    consumed: spec_fn(Vector2) -> bool,
    regions: Seq<Zone>,
)
    requires
        voided(before, now, rows, columns, consumed),
        whole_regions(before, rows, columns, id, consumed),
        are_regions(now, rows, columns, id, regions),
    ensures
        are_regions(before, rows, columns, id, regions),
        forall|p: Vector2| covered(regions, p) ==> !consumed(p),
{
    assert forall|k: int| 0 <= k < regions.len() implies {
        let region = #[trigger] regions[k];
        &&& on_grid(region.inner@[0], rows, columns)
        &&& in_category(before, id, region.inner@[0])
        &&& !consumed(region.inner@[0])
        &&& forall|p: Vector2|
            #[trigger] region.inner@.contains(p) <==> on_grid(p, rows, columns) && linked(
                before,
                rows,
                columns,
                id,
                region.inner@[0],
                p,
            )
    } by {
        let region = regions[k];
        let seed = region.inner@[0];
        assert(cell_at(now, seed) == (if consumed(seed) {
            cell_at(before, seed).with_kind(PreTileType::Void)
        } else {
            cell_at(before, seed)
        }));
        cell_at(before, seed).lemma_with_kind(PreTileType::Void);
        assert forall|p: Vector2| #[trigger]
            region.inner@.contains(p) <==> on_grid(p, rows, columns) && linked(
                before,
                rows,
                columns,
                id,
                seed,
                p,
            ) by {
            lemma_component_survives(before, now, rows, columns, id, consumed, seed, p);
        }
    }
    assert forall|p: Vector2| covered(regions, p) implies !consumed(p) by {
        let k = choose|k: int| 0 <= k < regions.len() && (#[trigger] regions[k]).inner@.contains(p);
        lemma_region_cells(now, rows, columns, id, regions[k].inner@[0], p);
        assert(cell_at(now, p) == (if consumed(p) {
            cell_at(before, p).with_kind(PreTileType::Void)
        } else {
            cell_at(before, p)
        }));
        cell_at(before, p).lemma_with_kind(PreTileType::Void);
    }
}

/// What the mountains of a list have taken is made of whole regions, of the
/// uplands and of the hazards.
proof fn lemma_taken_is_whole(
    before: Seq<Vec<PreTileType>>,
    rows: usize,
    columns: usize,
    mountains: Seq<Mountain>,
)
    requires
        are_regions(before, rows, columns, UPLAND, upland_zones(mountains)),
        are_regions(before, rows, columns, HAZARD, all_pools(mountains)),
    ensures
        whole_regions(before, rows, columns, UPLAND, taken(mountains)),
        whole_regions(before, rows, columns, HAZARD, taken(mountains)),
        forall|p: Vector2|
            covered(upland_zones(mountains), p) ==> in_category(before, UPLAND, p) && on_grid(
                p,
                rows,
                columns,
            ),
        forall|p: Vector2|
            covered(all_pools(mountains), p) ==> in_category(before, HAZARD, p) && on_grid(
                p,
                rows,
                columns,
            ),
{
    let consumed = taken(mountains);
    lemma_cover_is_whole(before, rows, columns, UPLAND, upland_zones(mountains));
    lemma_cover_is_whole(before, rows, columns, HAZARD, all_pools(mountains));
    assert forall|a: Vector2, b: Vector2|
        #[trigger] consumed(a) && in_category(before, UPLAND, a) && on_grid(b, rows, columns)
            && #[trigger] adjacent(a, b) && in_category(before, UPLAND, b) implies consumed(b) by {
        assert(cover(upland_zones(mountains))(a));
        assert(cover(upland_zones(mountains))(b));
    }
    assert forall|a: Vector2, b: Vector2|
        #[trigger] consumed(a) && in_category(before, HAZARD, a) && on_grid(b, rows, columns)
            && #[trigger] adjacent(a, b) && in_category(before, HAZARD, b) implies consumed(b) by {
        assert(cover(all_pools(mountains))(a));
        assert(cover(all_pools(mountains))(b));
    }
}

/// An upland cell that the scan finds starts a new mountain.
#[verifier::rlimit(40)]
proof fn lemma_upland_added(
    before: Seq<Vec<PreTileType>>,
    now: Seq<Vec<PreTileType>>,
    after: Seq<Vec<PreTileType>>,
    rows: usize,
    columns: usize,
    mountains: Seq<Mountain>,
    mountain: Mountain,
    x: usize,
    y: usize,
)
    requires
        surveyed(before, now, rows, columns, mountains, x, y),
        on_grid(Vector2 { x, y }, rows, columns),
        in_category(now, UPLAND, Vector2 { x, y }),
        upland_found(now, after, rows, columns, Vector2 { x, y }, mountain),
    ensures
        surveyed(before, after, rows, columns, mountains.push(mountain), x, (y + 1) as usize),
{
    let point = Vector2 { x, y };
    let more = mountains.push(mountain);
    let consumed = taken(mountains);
    let own = seq![mountain.zone];
    let members = mountain.zone.inner@;
    let pools = mountain.lava_pools@;
    lemma_taken_is_whole(before, rows, columns, mountains);
    // the new upland region
    assert(are_regions(now, rows, columns, UPLAND, own)) by {
        assert(own[0] == mountain.zone);
    }
    lemma_regions_carry(before, now, rows, columns, UPLAND, consumed, own);
    assert forall|p: Vector2| !(covered(upland_zones(mountains), p) && covered(own, p)) by {
        if covered(upland_zones(mountains), p) {
            assert(consumed(p));
        }
    }
    lemma_regions_join(before, rows, columns, UPLAND, upland_zones(mountains), own);
    assert(upland_zones(more) =~= upland_zones(mountains) + own);
    // its pools
    lemma_regions_carry(before, now, rows, columns, HAZARD, consumed, pools);
    assert forall|p: Vector2| !(covered(all_pools(mountains), p) && covered(pools, p)) by {
        if covered(all_pools(mountains), p) {
            assert(consumed(p));
        }
    }
    lemma_regions_join(before, rows, columns, HAZARD, all_pools(mountains), pools);
    assert(more.drop_last() =~= mountains);
    assert(all_pools(more) == all_pools(mountains) + pools);
    assert forall|p: Vector2| covered(own, p) <==> members.contains(p) by {
        if covered(own, p) {
            let k = choose|k: int| 0 <= k < own.len() && (#[trigger] own[k]).inner@.contains(p);
            assert(own[k] == mountain.zone);
        }
        if members.contains(p) {
            assert(own[0].inner@.contains(p));
        }
    }
    assert forall|p: Vector2|
        taken(more)(p) <==> consumed(p) || members.contains(p) || covered(pools, p) by {
        lemma_cover_joins(upland_zones(mountains), own, p);
        lemma_cover_joins(all_pools(mountains), pools, p);
    }
    assert forall|p: Vector2| on_grid(p, rows, columns) implies #[trigger] cell_at(after, p) == (
    if taken(more)(p) {
        cell_at(before, p).with_kind(PreTileType::Void)
    } else {
        cell_at(before, p)
    }) by {
        assert(cell_at(now, p) == (if consumed(p) {
            cell_at(before, p).with_kind(PreTileType::Void)
        } else {
            cell_at(before, p)
        }));
    }
    assert forall|p: Vector2|
        on_grid(p, rows, columns) && read_before(p, x, (y + 1) as usize) && #[trigger] in_category(
            before,
            UPLAND,
            p,
        ) implies covered(upland_zones(more), p) by {
        lemma_cover_joins(upland_zones(mountains), own, p);
        if p == point {
            assert(members[0] == point);
        }
    }
    assert forall|k: int| 0 <= k < more.len() implies mountain_ok(#[trigger] more[k]) by {
        if k < mountains.len() {
            assert(more[k] == mountains[k]);
        }
    }
    assert forall|m: Vector2, q: Vector2|
        #[trigger] covered(upland_zones(more), m) && on_grid(q, rows, columns)
            && #[trigger] adjacent(m, q) && in_category(before, HAZARD, q) implies covered(
        all_pools(more),
        q,
    ) by {
        lemma_cover_joins(upland_zones(mountains), own, m);
        lemma_cover_joins(all_pools(mountains), pools, q);
        if !covered(upland_zones(mountains), m) {
            assert(members.contains(m));
            assert(cell_at(now, q) == (if consumed(q) {
                cell_at(before, q).with_kind(PreTileType::Void)
            } else {
                cell_at(before, q)
            }));
            if consumed(q) {
                if covered(upland_zones(mountains), q) {
                    assert(in_category(before, UPLAND, q));
                }
            } else {
                assert(in_category(now, HAZARD, q));
            }
        }
    }
    assert forall|p: Vector2| members.contains(p) implies !read_before(p, x, y) by {
        lemma_region_cells(now, rows, columns, UPLAND, point, p);
        assert(cell_at(now, p) == (if consumed(p) {
            cell_at(before, p).with_kind(PreTileType::Void)
        } else {
            cell_at(before, p)
        }));
        assert(!covered(upland_zones(mountains), p));
        assert(in_category(before, UPLAND, p));
    }
    assert forall|k: int| 0 <= k < upland_zones(mountains).len() implies read_before(
        (#[trigger] upland_zones(mountains)[k]).inner@[0],
        x,
        y,
    ) by {
        assert(read_before(mountains[k].zone.inner@[0], x, y));
    }
    lemma_region_order(upland_zones(mountains), mountain.zone, rows, columns, x, y);
    assert(upland_zones(more) =~= upland_zones(mountains).push(mountain.zone));
    assert forall|k: int| 0 <= k < more.len() implies read_before(
        (#[trigger] more[k]).zone.inner@[0],
        x,
        (y + 1) as usize,
    ) by {
        assert(upland_zones(more)[k] == more[k].zone);
    }
}

/// A cell that the scan finds not to be upland (any more) needs nothing.
proof fn lemma_upland_passed(
    before: Seq<Vec<PreTileType>>,
    now: Seq<Vec<PreTileType>>,
    rows: usize,
    columns: usize,
    mountains: Seq<Mountain>,
    x: usize,
    y: usize,
)
    requires
        surveyed(before, now, rows, columns, mountains, x, y),
        on_grid(Vector2 { x, y }, rows, columns),
        !in_category(now, UPLAND, Vector2 { x, y }),
    ensures
        surveyed(before, now, rows, columns, mountains, x, (y + 1) as usize),
{
    let here = Vector2 { x, y };
    lemma_taken_is_whole(before, rows, columns, mountains);
    assert(cell_at(now, here) == (if taken(mountains)(here) {
        cell_at(before, here).with_kind(PreTileType::Void)
    } else {
        cell_at(before, here)
    }));
    if in_category(before, UPLAND, here) {
        assert(taken(mountains)(here));
        if covered(all_pools(mountains), here) {
            assert(in_category(before, HAZARD, here));
        }
    }
    assert forall|k: int| 0 <= k < mountains.len() implies read_before(
        (#[trigger] mountains[k]).zone.inner@[0],
        x,
        (y + 1) as usize,
    ) by {
        assert(read_before(mountains[k].zone.inner@[0], x, y));
    }
}

/// Takes the upland regions out of the grid, each with the hazard pools next
/// to it that no earlier region has taken, in the order in which a reading of
/// the grid meets them.
pub fn uplands(world: &mut Vec<Vec<PreTileType>>) -> (mountains: Vec<Mountain>)
    requires
        old(world).len() > 0,
        rectangular(old(world)@, old(world).len(), old(world)[0].len()),
    ensures
        final(world).len() == old(world).len(),
        uplands_found(
            old(world)@,
            final(world)@,
            old(world).len(),
            old(world)[0].len(),
            mountains@,
        ),
{
    let rows = world.len();
    let columns = world[0].len();
    let ghost before = world@;
    let mut mountains: Vec<Mountain> = Vec::new();
    proof {
        assert(upland_zones(mountains@) =~= Seq::<Zone>::empty());
        assert(!covered(upland_zones(mountains@), Vector2 { x: 0, y: 0 }));
    }
    let mut x: usize = 0;
    while x < rows
        invariant
            x <= rows,
            rows == world.len(),
            rows > 0,
            surveyed(before, world@, rows, columns, mountains@, x, 0),
        decreases rows - x,
    {
        let mut y: usize = 0;
        while y < columns
            invariant
                x < rows,
                y <= columns,
                rows == world.len(),
                surveyed(before, world@, rows, columns, mountains@, x, y),
            decreases columns - y,
        {
            let ghost now = world@;
            let ghost listed = mountains@;
            let wanted = match world[x][y] {
                PreTileType::Zone(i) => i == UPLAND,
                _ => false,
            };
            if wanted {
                assert(columns == world[0].len());
                let mountain = Mountain::new(world, Vector2::new(x, y));
                proof {
                    lemma_upland_added(before, now, world@, rows, columns, listed, mountain, x, y);
                }
                mountains.push(mountain);
            } else {
                proof {
                    lemma_upland_passed(before, now, rows, columns, listed, x, y);
                }
            }
            y += 1;
        }
        x += 1;
    }
    proof {
        lemma_taken_is_whole(before, rows, columns, mountains@);
        assert forall|p: Vector2| on_grid(p, rows, columns) implies (#[trigger] in_category(
            before,
            UPLAND,
            p,
        ) <==> covered(upland_zones(mountains@), p)) by {
            if in_category(before, UPLAND, p) {
                assert(read_before(p, rows, 0));
            }
        }
    }
    mountains
}

/// The regions of a grid by role.
pub struct Zones {
    pub coasts: Vec<Zone>,
    pub cities: Vec<Zone>,
    pub hills: Vec<Zone>,
    pub mountains: Vec<Mountain>,
}

/// The coasts and the uplands have been taken out of the grid: `coasts` are
/// the coast regions, `mountains` the upland regions with their pools, and the
/// cells of all of them have become the placeholder.
pub open spec fn zones_found(
    before: Seq<Vec<PreTileType>>,
    after: Seq<Vec<PreTileType>>,
    rows: usize,
    columns: usize,
    zones: Zones,
) -> bool {
    &&& zones.cities@.len() == 0
    &&& zones.hills@.len() == 0
    &&& forall|k: int|
        0 <= k < zones.coasts@.len() ==> (#[trigger] zones.coasts@[k]).tile == PreTileType::Void
    &&& are_regions(before, rows, columns, COAST, zones.coasts@)
    &&& in_reading_order(zones.coasts@)
    &&& forall|p: Vector2|
        on_grid(p, rows, columns) ==> (#[trigger] in_category(before, COAST, p) <==> covered(
            zones.coasts@,
            p,
        ))
    &&& are_regions(before, rows, columns, UPLAND, upland_zones(zones.mountains@))
    &&& in_reading_order(upland_zones(zones.mountains@))
    &&& are_regions(before, rows, columns, HAZARD, all_pools(zones.mountains@))
    &&& forall|p: Vector2|
        on_grid(p, rows, columns) ==> (#[trigger] in_category(before, UPLAND, p) <==> covered(
            upland_zones(zones.mountains@),
            p,
        ))
    &&& forall|k: int| 0 <= k < zones.mountains@.len() ==> mountain_ok(#[trigger] zones.mountains@[k])
    &&& forall|m: Vector2, q: Vector2|
        #[trigger] covered(upland_zones(zones.mountains@), m) && on_grid(q, rows, columns)
            && #[trigger] adjacent(m, q) && in_category(before, HAZARD, q) ==> covered(
            all_pools(zones.mountains@),
            q,
        )
    &&& rectangular(after, rows, columns)
    &&& forall|p: Vector2|
        on_grid(p, rows, columns) ==> #[trigger] cell_at(after, p) == (if covered(zones.coasts@, p)
            || taken(zones.mountains@)(p) {
            PreTileType::Void
        } else {
            cell_at(before, p)
        })
}

/// Upland regions found after the coasts were taken are the upland regions of
/// the grid as it was before.
proof fn lemma_uplands_carry(
    before: Seq<Vec<PreTileType>>,
    mid: Seq<Vec<PreTileType>>,
    after: Seq<Vec<PreTileType>>,
    rows: usize,
    columns: usize,
    coasts: Seq<Zone>,
    mountains: Seq<Mountain>,
)
    requires
        rectangular(before, rows, columns),
        segmented(before, mid, rows, columns, COAST, coasts),
        uplands_found(mid, after, rows, columns, mountains),
    ensures
        are_regions(before, rows, columns, UPLAND, upland_zones(mountains)),
        are_regions(before, rows, columns, HAZARD, all_pools(mountains)),
        forall|p: Vector2|
            on_grid(p, rows, columns) ==> (#[trigger] in_category(before, UPLAND, p) <==> covered(
                upland_zones(mountains),
                p,
            )),
        forall|m: Vector2, q: Vector2|
            #[trigger] covered(upland_zones(mountains), m) && on_grid(q, rows, columns)
                && #[trigger] adjacent(m, q) && in_category(before, HAZARD, q) ==> covered(
                all_pools(mountains),
                q,
            ),
        forall|p: Vector2|
            on_grid(p, rows, columns) ==> #[trigger] cell_at(after, p) == (if covered(coasts, p)
                || taken(mountains)(p) {
                PreTileType::Void
            } else {
                cell_at(before, p)
            }),
{
    let consumed = cover(coasts);
    lemma_cover_is_whole(before, rows, columns, COAST, coasts);
    assert(voided(before, mid, rows, columns, consumed)) by {
        assert forall|p: Vector2| on_grid(p, rows, columns) implies #[trigger] cell_at(mid, p) == (
        if consumed(p) {
            cell_at(before, p).with_kind(PreTileType::Void)
        } else {
            cell_at(before, p)
        }) by {
            assert(in_category(before, COAST, p) <==> covered(coasts, p));
        }
    }
    assert(whole_regions(before, rows, columns, UPLAND, consumed));
    assert(whole_regions(before, rows, columns, HAZARD, consumed));
    lemma_regions_carry(before, mid, rows, columns, UPLAND, consumed, upland_zones(mountains));
    lemma_regions_carry(before, mid, rows, columns, HAZARD, consumed, all_pools(mountains));
    assert forall|p: Vector2| on_grid(p, rows, columns) implies (in_category(mid, UPLAND, p)
        <==> in_category(before, UPLAND, p)) && (in_category(mid, HAZARD, p) <==> in_category(
        before,
        HAZARD,
        p,
    )) by {
        assert(cell_at(mid, p) == (if consumed(p) {
            cell_at(before, p).with_kind(PreTileType::Void)
        } else {
            cell_at(before, p)
        }));
    }
    assert forall|p: Vector2| on_grid(p, rows, columns) implies (#[trigger] in_category(
        before,
        UPLAND,
        p,
    ) <==> covered(upland_zones(mountains), p)) by {
        assert(in_category(mid, UPLAND, p) <==> covered(upland_zones(mountains), p));
    }
    assert forall|p: Vector2| on_grid(p, rows, columns) implies #[trigger] cell_at(after, p) == (
    if covered(coasts, p) || taken(mountains)(p) {
        PreTileType::Void
    } else {
        cell_at(before, p)
    }) by {
        assert(cell_at(after, p) == (if taken(mountains)(p) {
            cell_at(mid, p).with_kind(PreTileType::Void)
        } else {
            cell_at(mid, p)
        }));
        assert(cell_at(mid, p) == (if consumed(p) {
            cell_at(before, p).with_kind(PreTileType::Void)
        } else {
            cell_at(before, p)
        }));
    }
}

/// How many of `n` upland regions become settlements: two thirds, rounded down.
pub open spec fn promoted_count(n: int) -> int {
    (2 * n) / 3
}

/// How many of `n` settlements become foothills: half, rounded down.
pub open spec fn demoted_count(n: int) -> int {
    n / 2
}

/// `after` is `before` with two thirds of its mountains promoted: the leading
/// mountains stay; the others, taken from the end, have become settlements,
/// each with its pools, behind the settlements that were there.
pub open spec fn promoted_from(before: Zones, after: Zones) -> bool {
    &&& after.coasts == before.coasts
    &&& after.hills == before.hills
    &&& after.mountains@ == before.mountains@.take(
        before.mountains@.len() - promoted_count(before.mountains@.len() as int),
    )
    &&& after.cities@.len() == before.cities@.len() + promoted_count(
        before.mountains@.len() as int,
    )
    &&& forall|i: int|
        0 <= i < before.cities@.len() ==> #[trigger] after.cities@[i] == before.cities@[i]
    &&& forall|i: int|
        0 <= i < promoted_count(before.mountains@.len() as int) ==> is_city_of(
            #[trigger] after.cities@[before.cities@.len() + i],
            before.mountains@[before.mountains@.len() - 1 - i],
        )
}

/// `after` is `before` with half of its settlements demoted: the leading
/// settlements stay; the others, taken from the end, have become foothills,
/// behind the foothills that were there.
pub open spec fn demoted_from(before: Zones, after: Zones) -> bool {
    &&& after.coasts == before.coasts
    &&& after.mountains == before.mountains
    &&& after.cities@ == before.cities@.take(
        before.cities@.len() - demoted_count(before.cities@.len() as int),
    )
    &&& after.hills@ == before.hills@ + Seq::new(
        demoted_count(before.cities@.len() as int) as nat,
        |j: int| before.cities@[before.cities@.len() - 1 - j],
    )
}

impl Zones {
    /// Takes the coasts and the uplands out of the grid.
    pub fn scan(world: &mut Vec<Vec<PreTileType>>) -> (zones: Self)
        requires
            old(world).len() > 0,
            rectangular(old(world)@, old(world).len(), old(world)[0].len()),
        ensures
            final(world).len() == old(world).len(),
            zones_found(old(world)@, final(world)@, old(world).len(), old(world)[0].len(), zones),
    {
        let ghost before = world@;
        let ghost rows = world.len();
        let ghost columns = world[0].len();
        let coasts = extract(world, COAST);
        let ghost mid = world@;
        let mountains = uplands(world);
        proof {
            lemma_uplands_carry(before, mid, world@, rows, columns, coasts@, mountains@);
        }
        Zones { coasts, cities: Vec::new(), hills: Vec::new(), mountains }
    }

    /// Turns two thirds of the upland regions into settlements, the last of
    /// the list first: each takes its pools with it.
    pub fn promote(&mut self)
        requires
            forall|k: int|
                0 <= k < old(self).mountains@.len() ==> (#[trigger] old(
                    self,
                ).mountains@[k]).zone.inner@.len() > 0,
        ensures
            promoted_from(*old(self), *final(self)),
    {
        let n = self.mountains.len();
        let goal = n / 3 * 2 + (n % 3) * 2 / 3;
        let ghost given = self.mountains@;
        let ghost had = self.cities@;
        let mut i: usize = 0;
        while i < goal
            invariant
                i <= goal,
                goal == promoted_count(n as int),
                goal <= n,
                n == given.len(),
                self.coasts == old(self).coasts,
                self.hills == old(self).hills,
                self.mountains@ == given.take(n - i),
                self.cities@.len() == had.len() + i,
                forall|k: int| 0 <= k < given.len() ==> (#[trigger] given[k]).zone.inner@.len() > 0,
                forall|k: int| 0 <= k < had.len() ==> #[trigger] self.cities@[k] == had[k],
                forall|k: int|
                    0 <= k < i ==> is_city_of(
                        #[trigger] self.cities@[had.len() + k],
                        given[n - 1 - k],
                    ),
            decreases goal - i,
        {
            let ghost listed = self.cities@;
            let mountain = self.mountains.pop().unwrap();
            assert(mountain == given[n - 1 - i]);
            let city = mountain.to_city();
            self.cities.push(city);
            proof {
                assert(self.mountains@ =~= given.take(n - i - 1));
                assert forall|k: int| 0 <= k < i + 1 implies is_city_of(
                    #[trigger] self.cities@[had.len() + k],
                    given[n - 1 - k],
                ) by {
                    if k < i {
                        assert(self.cities@[had.len() + k] == listed[had.len() + k]);
                    }
                }
            }
            i += 1;
        }
    }

    /// Turns half of the settlements into foothills, the last of the list first.
    pub fn demote(&mut self)
        ensures
            demoted_from(*old(self), *final(self)),
    {
        let n = self.cities.len();
        let goal = n / 2;
        let ghost given = self.cities@;
        let ghost had = self.hills@;
        let mut i: usize = 0;
        while i < goal
            invariant
                i <= goal,
                goal == demoted_count(n as int),
                n == given.len(),
                self.coasts == old(self).coasts,
                self.mountains == old(self).mountains,
                self.cities@ == given.take(n - i),
                self.hills@ == had + Seq::new(i as nat, |j: int| given[n - 1 - j]),
            decreases goal - i,
        {
            let city = self.cities.pop().unwrap();
            assert(city == given[n - 1 - i]);
            self.hills.push(city);
            proof {
                assert(self.cities@ =~= given.take(n - i - 1));
                assert(self.hills@ =~= had + Seq::new((i + 1) as nat, |j: int| given[n - 1 - j]));
            }
            i += 1;
        }
    }
}

/// The regions of `after` are those of `before` but for their categories.
pub open spec fn same_cells(before: Seq<Zone>, after: Seq<Zone>) -> bool {
    &&& after.len() == before.len()
    &&& forall|k: int|
        0 <= k < before.len() ==> (#[trigger] after[k]).inner == before[k].inner && after[k].centroid
            == before[k].centroid
}

/// Every cell of every region lies within the rows of the grid.
pub open spec fn all_within<T>(g: Seq<Vec<T>>, regions: Seq<Zone>) -> bool {
    forall|k: int| 0 <= k < regions.len() ==> within(g, (#[trigger] regions[k]).inner@)
}

/// The grids have rows of the same lengths.
pub open spec fn same_shape<A, B>(a: Seq<Vec<A>>, b: Seq<Vec<B>>) -> bool {
    &&& a.len() == b.len()
    &&& forall|i: int| 0 <= i < a.len() ==> (#[trigger] a[i]).len() == b[i].len()
}

/// The position lies within the rows of the grid.
pub open spec fn inside<T>(g: Seq<Vec<T>>, p: Vector2) -> bool {
    p.x < g.len() && p.y < g[p.x as int].len()
}

/// What painting a list of regions with `tile` makes of a cell.
pub open spec fn list_paint(
    regions: Seq<Zone>,
    p: Vector2,
    tile: PreTileType,
    beneath: PreTileType,
) -> PreTileType {
    if covered(regions, p) {
        tile
    } else {
        beneath
    }
}

/// What painting the coasts, each with its own category, one after the other,
/// makes of a cell.
pub open spec fn coast_paint(coasts: Seq<Zone>, p: Vector2, beneath: PreTileType) -> PreTileType
    decreases coasts.len(),
{
    if coasts.len() == 0 {
        beneath
    } else if coasts.last().inner@.contains(p) {
        coasts.last().tile
    } else {
        coast_paint(coasts.drop_last(), p, beneath)
    }
}

/// What painting the mountains one after the other, the pools of each with
/// lava and then its upland region as mountain, makes of a cell.
pub open spec fn mountain_paint(
    mountains: Seq<Mountain>,
    p: Vector2,
    beneath: PreTileType,
) -> PreTileType
    decreases mountains.len(),
{
    if mountains.len() == 0 {
        beneath
    } else if mountains.last().zone.inner@.contains(p) {
        PreTileType::Mountain
    } else if covered(mountains.last().lava_pools@, p) {
        PreTileType::Lava
    } else {
        mountain_paint(mountains.drop_last(), p, beneath)
    }
}

/// What painting all the regions makes of a cell: first the coasts, then the
/// mountains, then the settlements as grass, then the foothills as hill.
pub open spec fn paint_of(zones: Zones, p: Vector2, beneath: PreTileType) -> PreTileType {
    list_paint(
        zones.hills@,
        p,
        PreTileType::Hill,
        list_paint(
            zones.cities@,
            p,
            PreTileType::Grass,
            mountain_paint(zones.mountains@, p, coast_paint(zones.coasts@, p, beneath)),
        ),
    )
}

/// The regions and pools of the mountains of `after` are those of `before` but
/// for their categories, which are mountain and lava.
pub open spec fn same_mountains(before: Seq<Mountain>, after: Seq<Mountain>) -> bool {
    &&& after.len() == before.len()
    &&& forall|k: int|
        0 <= k < before.len() ==> {
            let m = #[trigger] after[k];
            &&& m.zone.inner == before[k].zone.inner
            &&& m.zone.centroid == before[k].zone.centroid
            &&& m.zone.tile == PreTileType::Mountain
            &&& same_cells(before[k].lava_pools@, m.lava_pools@)
            &&& forall|j: int|
                0 <= j < m.lava_pools@.len() ==> (#[trigger] m.lava_pools@[j]).tile
                    == PreTileType::Lava
        }
}

/// Regions with the same cells cover the same cells.
proof fn lemma_same_cells_cover(before: Seq<Zone>, after: Seq<Zone>, p: Vector2)
    requires
        same_cells(before, after),
    ensures
        covered(before, p) <==> covered(after, p),
{
    if covered(before, p) {
        let k = choose|k: int| 0 <= k < before.len() && (#[trigger] before[k]).inner@.contains(p);
        assert(after[k].inner@.contains(p));
    }
    if covered(after, p) {
        let k = choose|k: int| 0 <= k < after.len() && (#[trigger] after[k]).inner@.contains(p);
        assert(before[k].inner@.contains(p));
    }
}

/// Gives every region of the list the category `tile` and writes it on their cells.
pub fn paint_list(list: &mut Vec<Zone>, world: &mut Vec<Vec<PreTileType>>, tile: PreTileType)
    requires
        all_within(old(world)@, old(list)@),
    ensures
        same_cells(old(list)@, final(list)@),
        forall|k: int| 0 <= k < final(list)@.len() ==> (#[trigger] final(list)@[k]).tile == tile,
        same_shape(old(world)@, final(world)@),
        forall|p: Vector2|
            inside(old(world)@, p) ==> #[trigger] cell_at(final(world)@, p) == list_paint(
                old(list)@,
                p,
                tile,
                cell_at(old(world)@, p),
            ),
{
    let ghost given = list@;
    let ghost before = world@;
    let mut i: usize = 0;
    while i < list.len()
        invariant
            i <= list.len(),
            same_cells(given, list@),
            all_within(before, given),
            forall|k: int| 0 <= k < i ==> (#[trigger] list@[k]).tile == tile,
            same_shape(before, world@),
            forall|p: Vector2|
                inside(before, p) ==> #[trigger] cell_at(world@, p) == list_paint(
                    given.take(i as int),
                    p,
                    tile,
                    cell_at(before, p),
                ),
        decreases list.len() - i,
    {
        let ghost listed = list@;
        let ghost now = world@;
        proof {
            assert(within(before, given[i as int].inner@));
            assert(within(now, list@[i as int].inner@)) by {
                let cells = list@[i as int].inner@;
                assert forall|c: int| 0 <= c < cells.len() implies (#[trigger] cells[c]).x
                    < now.len() && cells[c].y < now[cells[c].x as int].len() by {
                    assert(now[cells[c].x as int].len() == before[cells[c].x as int].len());
                }
            }
        }
        list[i].fill(world, tile);
        proof {
            assert forall|k: int| 0 <= k < given.len() implies (#[trigger] list@[k]).inner
                == given[k].inner && list@[k].centroid == given[k].centroid by {
                if k != i {
                    assert(list@[k] == listed[k]);
                }
            }
            assert forall|k: int| 0 <= k < i + 1 implies (#[trigger] list@[k]).tile == tile by {
                if k != i {
                    assert(list@[k] == listed[k]);
                }
            }
            assert forall|r: int| 0 <= r < before.len() implies (#[trigger] before[r]).len()
                == world@[r].len() by {
                assert(now[r].len() == before[r].len());
            }
            let upto = given.take(i + 1);
            assert forall|p: Vector2| inside(before, p) implies #[trigger] cell_at(world@, p)
                == list_paint(upto, p, tile, cell_at(before, p)) by {
                assert(inside(now, p));
                assert(cell_at(now, p) == list_paint(
                    given.take(i as int),
                    p,
                    tile,
                    cell_at(before, p),
                ));
                if covered(given.take(i as int), p) {
                    let k = choose|k: int|
                        0 <= k < given.take(i as int).len() && (#[trigger] given.take(
                            i as int,
                        )[k]).inner@.contains(p);
                    assert(upto[k].inner@.contains(p));
                }
                if given[i as int].inner@.contains(p) {
                    assert(upto[i as int].inner@.contains(p));
                }
                if covered(upto, p) {
                    let k = choose|k: int|
                        0 <= k < upto.len() && (#[trigger] upto[k]).inner@.contains(p);
                    if k < i {
                        assert(given.take(i as int)[k].inner@.contains(p));
                    }
                }
            }
        }
        i += 1;
    }
    proof {
        assert(given.take(given.len() as int) =~= given);
    }
}

/// Every cell of every upland region and pool lies within the rows of the grid.
pub open spec fn mountains_within<T>(g: Seq<Vec<T>>, mountains: Seq<Mountain>) -> bool {
    forall|k: int|
        0 <= k < mountains.len() ==> within(g, (#[trigger] mountains[k]).zone.inner@) && all_within(
            g,
            mountains[k].lava_pools@,
        )
}

/// Cells within the rows of a grid are within the rows of a grid of the same shape.
proof fn lemma_within_same_shape<T>(a: Seq<Vec<T>>, b: Seq<Vec<T>>, cells: Seq<Vector2>)
    requires
        same_shape(a, b),
        within(a, cells),
    ensures
        within(b, cells),
{
    assert forall|c: int| 0 <= c < cells.len() implies (#[trigger] cells[c]).x < b.len()
        && cells[c].y < b[cells[c].x as int].len() by {
        assert(a[cells[c].x as int].len() == b[cells[c].x as int].len());
    }
}

/// Gives each coast region sand or grass, as the generator chooses, and
/// writes it on the cells of the region.
pub fn paint_coasts(
    coasts: &mut Vec<Zone>,
    world: &mut Vec<Vec<PreTileType>>,
    rng: &mut StdRng,
)
    requires
        all_within(old(world)@, old(coasts)@),
    ensures
        same_cells(old(coasts)@, final(coasts)@),
        forall|k: int|
            0 <= k < final(coasts)@.len() ==> (#[trigger] final(coasts)@[k]).tile
                == PreTileType::Sand || final(coasts)@[k].tile == PreTileType::Grass,
        same_shape(old(world)@, final(world)@),
        forall|p: Vector2|
            inside(old(world)@, p) ==> #[trigger] cell_at(final(world)@, p) == coast_paint(
                final(coasts)@,
                p,
                cell_at(old(world)@, p),
            ),
{
    let ghost given = coasts@;
    let ghost before = world@;
    let mut candidates: Vec<PreTileType> = Vec::new();
    candidates.push(PreTileType::Sand);
    candidates.push(PreTileType::Grass);
    let mut i: usize = 0;
    proof {
        assert(coasts@.take(0) =~= Seq::<Zone>::empty());
    }
    while i < coasts.len()
        invariant
            i <= coasts.len(),
            candidates@ == seq![PreTileType::Sand, PreTileType::Grass],
            same_cells(given, coasts@),
            all_within(before, given),
            forall|k: int|
                0 <= k < i ==> (#[trigger] coasts@[k]).tile == PreTileType::Sand || coasts@[k].tile
                    == PreTileType::Grass,
            same_shape(before, world@),
            forall|p: Vector2|
                inside(before, p) ==> #[trigger] cell_at(world@, p) == coast_paint(
                    coasts@.take(i as int),
                    p,
                    cell_at(before, p),
                ),
        decreases coasts.len() - i,
    {
        let ghost listed = coasts@;
        let ghost now = world@;
        let tile = match choose_one(&candidates, rng) {
            Some(t) => t,
            None => PreTileType::Sand,
        };
        proof {
            assert(within(before, given[i as int].inner@));
            lemma_within_same_shape(before, now, coasts@[i as int].inner@);
            assert(candidates@[0] == PreTileType::Sand && candidates@[1] == PreTileType::Grass);
        }
        coasts[i].fill(world, tile);
        proof {
            assert forall|k: int| 0 <= k < given.len() implies (#[trigger] coasts@[k]).inner
                == given[k].inner && coasts@[k].centroid == given[k].centroid by {
                if k != i {
                    assert(coasts@[k] == listed[k]);
                }
            }
            assert forall|k: int| 0 <= k < i + 1 implies (#[trigger] coasts@[k]).tile
                == PreTileType::Sand || coasts@[k].tile == PreTileType::Grass by {
                if k != i {
                    assert(coasts@[k] == listed[k]);
                }
            }
            assert forall|r: int| 0 <= r < before.len() implies (#[trigger] before[r]).len()
                == world@[r].len() by {
                assert(now[r].len() == before[r].len());
            }
            let upto = coasts@.take(i + 1);
            assert(upto.drop_last() =~= listed.take(i as int)) by {
                assert forall|k: int| 0 <= k < i implies upto.drop_last()[k] == listed.take(
                    i as int,
                )[k] by {
                    assert(coasts@[k] == listed[k]);
                }
            }
            assert(upto.last() == coasts@[i as int]);
            assert forall|p: Vector2| inside(before, p) implies #[trigger] cell_at(world@, p)
                == coast_paint(upto, p, cell_at(before, p)) by {
                assert(inside(now, p));
                assert(cell_at(now, p) == coast_paint(listed.take(i as int), p, cell_at(before, p)));
            }
        }
        i += 1;
    }
    proof {
        assert(coasts@.take(coasts@.len() as int) =~= coasts@);
    }
}

/// Writes lava on the cells of the pools of each mountain and then mountain on
/// the cells of its upland region.
pub fn paint_mountains(mountains: &mut Vec<Mountain>, world: &mut Vec<Vec<PreTileType>>)
    requires
        mountains_within(old(world)@, old(mountains)@),
    ensures
        same_mountains(old(mountains)@, final(mountains)@),
        same_shape(old(world)@, final(world)@),
        forall|p: Vector2|
            inside(old(world)@, p) ==> #[trigger] cell_at(final(world)@, p) == mountain_paint(
                final(mountains)@,
                p,
                cell_at(old(world)@, p),
            ),
{
    let ghost given = mountains@;
    let ghost before = world@;
    let mut i: usize = 0;
    proof {
        assert(mountains@.take(0) =~= Seq::<Mountain>::empty());
    }
    while i < mountains.len()
        invariant
            i <= mountains.len(),
            mountains@.len() == given.len(),
            mountains_within(before, given),
            same_mountains(given.take(i as int), mountains@.take(i as int)),
            forall|k: int| i <= k < given.len() ==> #[trigger] mountains@[k] == given[k],
            same_shape(before, world@),
            forall|p: Vector2|
                inside(before, p) ==> #[trigger] cell_at(world@, p) == mountain_paint(
                    mountains@.take(i as int),
                    p,
                    cell_at(before, p),
                ),
        decreases mountains.len() - i,
    {
        let ghost listed = mountains@;
        let ghost now = world@;
        proof {
            assert(mountains@[i as int] == given[i as int]);
            assert(within(before, given[i as int].zone.inner@));
            assert(all_within(now, mountains@[i as int].lava_pools@)) by {
                assert forall|k: int|
                    0 <= k < given[i as int].lava_pools@.len() implies within(
                    now,
                    (#[trigger] given[i as int].lava_pools@[k]).inner@,
                ) by {
                    lemma_within_same_shape(before, now, given[i as int].lava_pools@[k].inner@);
                }
            }
        }
        paint_list(&mut mountains[i].lava_pools, world, PreTileType::Lava);
        let ghost drained = world@;
        proof {
            assert(same_shape(before, drained)) by {
                assert forall|r: int| 0 <= r < before.len() implies (#[trigger] before[r]).len()
                    == drained[r].len() by {
                    assert(now[r].len() == before[r].len());
                }
            }
            lemma_within_same_shape(before, drained, given[i as int].zone.inner@);
        }
        mountains[i].zone.fill(world, PreTileType::Mountain);
        proof {
            assert forall|r: int| 0 <= r < before.len() implies (#[trigger] before[r]).len()
                == world@[r].len() by {
                assert(drained[r].len() == before[r].len());
            }
            let upto = mountains@.take(i + 1);
            assert(upto.drop_last() =~= listed.take(i as int)) by {
                assert forall|k: int| 0 <= k < i implies upto.drop_last()[k] == listed.take(
                    i as int,
                )[k] by {
                    assert(mountains@[k] == listed[k]);
                }
            }
            assert(upto.last() == mountains@[i as int]);
            assert forall|k: int| i + 1 <= k < given.len() implies #[trigger] mountains@[k]
                == given[k] by {
                assert(mountains@[k] == listed[k]);
            }
            assert(same_mountains(given.take(i + 1), upto)) by {
                assert forall|k: int| 0 <= k < i + 1 implies {
                    let m = #[trigger] upto[k];
                    &&& m.zone.inner == given.take(i + 1)[k].zone.inner
                    &&& m.zone.centroid == given.take(i + 1)[k].zone.centroid
                    &&& m.zone.tile == PreTileType::Mountain
                    &&& same_cells(given.take(i + 1)[k].lava_pools@, m.lava_pools@)
                    &&& forall|j: int|
                        0 <= j < m.lava_pools@.len() ==> (#[trigger] m.lava_pools@[j]).tile
                            == PreTileType::Lava
                } by {
                    if k < i {
                        assert(upto[k] == listed.take(i as int)[k]);
                        assert(given.take(i + 1)[k] == given.take(i as int)[k]);
                    }
                }
            }
            assert forall|p: Vector2| inside(before, p) implies #[trigger] cell_at(world@, p)
                == mountain_paint(upto, p, cell_at(before, p)) by {
                assert(inside(now, p));
                assert(inside(drained, p));
                assert(cell_at(now, p) == mountain_paint(
                    listed.take(i as int),
                    p,
                    cell_at(before, p),
                ));
                lemma_same_cells_cover(given[i as int].lava_pools@, upto.last().lava_pools@, p);
            }
        }
        i += 1;
    }
    proof {
        assert(mountains@.take(mountains@.len() as int) =~= mountains@);
        assert(given.take(given.len() as int) =~= given);
    }
}

/// Some region of `zones`, whatever its role, holds the cell.
pub open spec fn claimed(zones: Zones, p: Vector2) -> bool {
    ||| covered(zones.coasts@, p)
    ||| covered(upland_zones(zones.mountains@), p)
    ||| pooled(zones.mountains@, p)
    ||| covered(zones.cities@, p)
    ||| covered(zones.hills@, p)
}

/// Some pool of some mountain holds the cell.
pub open spec fn pooled(mountains: Seq<Mountain>, p: Vector2) -> bool {
    exists|k: int| 0 <= k < mountains.len() && covered((#[trigger] mountains[k]).lava_pools@, p)
}

/// The pools of a list of mountains hold a cell exactly when a pool of one of them does.
pub proof fn lemma_pooled(mountains: Seq<Mountain>, p: Vector2)
    ensures
        covered(all_pools(mountains), p) <==> pooled(mountains, p),
    decreases mountains.len(),
{
    if mountains.len() > 0 {
        let rest = mountains.drop_last();
        lemma_pooled(rest, p);
        lemma_cover_joins(all_pools(rest), mountains.last().lava_pools@, p);
        if pooled(rest, p) {
            let k = choose|k: int| 0 <= k < rest.len() && covered((#[trigger] rest[k]).lava_pools@, p);
            assert(mountains[k] == rest[k]);
        }
        if pooled(mountains, p) {
            let k = choose|k: int|
                0 <= k < mountains.len() && covered((#[trigger] mountains[k]).lava_pools@, p);
            if k < rest.len() {
                assert(rest[k] == mountains[k]);
            }
        }
    }
}

/// A list of mountains in another order holds the same cells.
pub proof fn lemma_permuted_mountains(
    before: Seq<Mountain>,
    after: Seq<Mountain>,
    order: Seq<int>,
    back: Seq<int>,
    p: Vector2,
)
    requires
        permuted(before, after, order, back),
    ensures
        covered(upland_zones(after), p) <==> covered(upland_zones(before), p),
        pooled(after, p) <==> pooled(before, p),
{
    if covered(upland_zones(after), p) {
        let k = choose|k: int|
            0 <= k < upland_zones(after).len() && (#[trigger] upland_zones(
                after,
            )[k]).inner@.contains(p);
        assert(after[k] == before[order[k]]);
        assert(upland_zones(before)[order[k]].inner@.contains(p));
    }
    if covered(upland_zones(before), p) {
        let k = choose|k: int|
            0 <= k < upland_zones(before).len() && (#[trigger] upland_zones(
                before,
            )[k]).inner@.contains(p);
        assert(after[back[k]] == before[order[back[k]]]);
        assert(upland_zones(after)[back[k]].inner@.contains(p));
    }
    if pooled(after, p) {
        let k = choose|k: int| 0 <= k < after.len() && covered((#[trigger] after[k]).lava_pools@, p);
        assert(after[k] == before[order[k]]);
        assert(covered(before[order[k]].lava_pools@, p));
    }
    if pooled(before, p) {
        let k = choose|k: int|
            0 <= k < before.len() && covered((#[trigger] before[k]).lava_pools@, p);
        assert(after[back[k]] == before[order[back[k]]]);
        assert(covered(after[back[k]].lava_pools@, p));
    }
}

/// The cells of a list of regions, joined, are the cells that the list covers.
pub proof fn lemma_joined(regions: Seq<Zone>, p: Vector2)
    ensures
        joined(regions).contains(p) <==> covered(regions, p),
    decreases regions.len(),
{
    if regions.len() > 0 {
        let rest = regions.drop_last();
        let tail = regions.last().inner@;
        lemma_joined(rest, p);
        let all = joined(rest) + tail;
        if joined(rest).contains(p) {
            let k = choose|k: int| 0 <= k < joined(rest).len() && joined(rest)[k] == p;
            assert(all[k] == p);
        }
        if tail.contains(p) {
            let k = choose|k: int| 0 <= k < tail.len() && tail[k] == p;
            assert(all[joined(rest).len() + k] == p);
            assert(regions[regions.len() - 1].inner@.contains(p));
        }
        if all.contains(p) {
            let k = choose|k: int| 0 <= k < all.len() && all[k] == p;
            if k < joined(rest).len() {
                assert(joined(rest)[k] == p);
            } else {
                assert(tail[k - joined(rest).len()] == p);
            }
        }
        if covered(rest, p) {
            let k = choose|k: int| 0 <= k < rest.len() && (#[trigger] rest[k]).inner@.contains(p);
            assert(regions[k].inner@.contains(p));
        }
        if covered(regions, p) {
            let k = choose|k: int|
                0 <= k < regions.len() && (#[trigger] regions[k]).inner@.contains(p);
            if k < rest.len() {
                assert(rest[k].inner@.contains(p));
            }
        }
    }
}

/// A settlement holds the cells of the upland region it was, and of its pools.
pub proof fn lemma_city_cells(city: Zone, mountain: Mountain, p: Vector2)
    requires
        is_city_of(city, mountain),
    ensures
        city.inner@.contains(p) <==> mountain.zone.inner@.contains(p) || covered(
            mountain.lava_pools@,
            p,
        ),
{
    lemma_joined(mountain.lava_pools@, p);
    let zone = mountain.zone.inner@;
    let pools = joined(mountain.lava_pools@);
    let all = zone + pools;
    if zone.contains(p) {
        let k = choose|k: int| 0 <= k < zone.len() && zone[k] == p;
        assert(all[k] == p);
    }
    if pools.contains(p) {
        let k = choose|k: int| 0 <= k < pools.len() && pools[k] == p;
        assert(all[zone.len() + k] == p);
    }
    if all.contains(p) {
        let k = choose|k: int| 0 <= k < all.len() && all[k] == p;
        if k < zone.len() {
            assert(zone[k] == p);
        } else {
            assert(pools[k - zone.len()] == p);
        }
    }
}

/// Promotion moves cells from the mountains to the settlements and loses none.
#[verifier::rlimit(40)]
pub proof fn lemma_promote_keeps_claims(before: Zones, after: Zones, p: Vector2)
    requires
        promoted_from(before, after),
    ensures
        claimed(after, p) <==> claimed(before, p),
{
    let n = before.mountains@.len() as int;
    let count = promoted_count(n);
    let had = before.cities@.len() as int;
    let old_ms = before.mountains@;
    let new_ms = after.mountains@;
    // a cell of a mountain that stays or of a settlement that was there
    if covered(upland_zones(new_ms), p) {
        let k = choose|k: int|
            0 <= k < upland_zones(new_ms).len() && (#[trigger] upland_zones(
                new_ms,
            )[k]).inner@.contains(p);
        assert(new_ms[k] == old_ms[k]);
        assert(upland_zones(old_ms)[k].inner@.contains(p));
    }
    if pooled(new_ms, p) {
        let k = choose|k: int| 0 <= k < new_ms.len() && covered((#[trigger] new_ms[k]).lava_pools@, p);
        assert(new_ms[k] == old_ms[k]);
        assert(covered(old_ms[k].lava_pools@, p));
    }
    if covered(before.cities@, p) {
        let k = choose|k: int|
            0 <= k < before.cities@.len() && (#[trigger] before.cities@[k]).inner@.contains(p);
        assert(after.cities@[k] == before.cities@[k]);
        assert(after.cities@[k].inner@.contains(p));
    }
    if covered(after.cities@, p) {
        let k = choose|k: int|
            0 <= k < after.cities@.len() && (#[trigger] after.cities@[k]).inner@.contains(p);
        if k < had {
            assert(after.cities@[k] == before.cities@[k]);
            assert(before.cities@[k].inner@.contains(p));
        } else {
            let i = k - had;
            assert(is_city_of(after.cities@[had + i], old_ms[n - 1 - i]));
            lemma_city_cells(after.cities@[k], old_ms[n - 1 - i], p);
            if old_ms[n - 1 - i].zone.inner@.contains(p) {
                assert(upland_zones(old_ms)[n - 1 - i].inner@.contains(p));
            }
        }
    }
    if covered(upland_zones(old_ms), p) {
        let k = choose|k: int|
            0 <= k < upland_zones(old_ms).len() && (#[trigger] upland_zones(
                old_ms,
            )[k]).inner@.contains(p);
        if k < n - count {
            assert(new_ms[k] == old_ms[k]);
            assert(upland_zones(new_ms)[k].inner@.contains(p));
        } else {
            let i = n - 1 - k;
            assert(is_city_of(after.cities@[had + i], old_ms[n - 1 - i]));
            lemma_city_cells(after.cities@[had + i], old_ms[k], p);
            assert(after.cities@[had + i].inner@.contains(p));
        }
    }
    if pooled(old_ms, p) {
        let k = choose|k: int| 0 <= k < old_ms.len() && covered((#[trigger] old_ms[k]).lava_pools@, p);
        if k < n - count {
            assert(new_ms[k] == old_ms[k]);
            assert(covered(new_ms[k].lava_pools@, p));
        } else {
            let i = n - 1 - k;
            assert(is_city_of(after.cities@[had + i], old_ms[n - 1 - i]));
            lemma_city_cells(after.cities@[had + i], old_ms[k], p);
            assert(after.cities@[had + i].inner@.contains(p));
        }
    }
}

/// Demotion moves cells from the settlements to the foothills and loses none.
pub proof fn lemma_demote_keeps_claims(before: Zones, after: Zones, p: Vector2)
    requires
        demoted_from(before, after),
    ensures
        claimed(after, p) <==> claimed(before, p),
{
    let n = before.cities@.len() as int;
    let count = demoted_count(n);
    let had = before.hills@.len() as int;
    if covered(after.cities@, p) {
        let k = choose|k: int|
            0 <= k < after.cities@.len() && (#[trigger] after.cities@[k]).inner@.contains(p);
        assert(before.cities@[k].inner@.contains(p));
    }
    if covered(after.hills@, p) {
        let k = choose|k: int|
            0 <= k < after.hills@.len() && (#[trigger] after.hills@[k]).inner@.contains(p);
        if k < had {
            assert(before.hills@[k].inner@.contains(p));
        } else {
            assert(before.cities@[n - 1 - (k - had)].inner@.contains(p));
        }
    }
    if covered(before.hills@, p) {
        let k = choose|k: int|
            0 <= k < before.hills@.len() && (#[trigger] before.hills@[k]).inner@.contains(p);
        assert(after.hills@[k].inner@.contains(p));
    }
    if covered(before.cities@, p) {
        let k = choose|k: int|
            0 <= k < before.cities@.len() && (#[trigger] before.cities@[k]).inner@.contains(p);
        if k < n - count {
            assert(after.cities@[k].inner@.contains(p));
        } else {
            let j = n - 1 - k;
            assert(after.hills@[had + j] == before.cities@[n - 1 - j]);
            assert(after.hills@[had + j].inner@.contains(p));
        }
    }
}

/// The category is one that classification gives to a region.
pub open spec fn is_region_terrain(t: PreTileType) -> bool {
    ||| t == PreTileType::Sand
    ||| t == PreTileType::Grass
    ||| t == PreTileType::Mountain
    ||| t == PreTileType::Lava
    ||| t == PreTileType::Hill
}

/// Every coast of the list is sand or grass.
pub open spec fn coasts_painted(coasts: Seq<Zone>) -> bool {
    forall|k: int|
        0 <= k < coasts.len() ==> (#[trigger] coasts[k]).tile == PreTileType::Sand || coasts[k].tile
            == PreTileType::Grass
}

/// A cell of a coast is painted sand or grass; a cell of no coast stays what lies beneath.
pub proof fn lemma_coast_paint(coasts: Seq<Zone>, p: Vector2, beneath: PreTileType)
    requires
        coasts_painted(coasts),
    ensures
        covered(coasts, p) ==> coast_paint(coasts, p, beneath) == PreTileType::Sand || coast_paint(
            coasts,
            p,
            beneath,
        ) == PreTileType::Grass,
        !covered(coasts, p) ==> coast_paint(coasts, p, beneath) == beneath,
    decreases coasts.len(),
{
    if coasts.len() > 0 {
        let rest = coasts.drop_last();
        assert(coasts_painted(rest)) by {
            assert forall|k: int| 0 <= k < rest.len() implies (#[trigger] rest[k]).tile
                == PreTileType::Sand || rest[k].tile == PreTileType::Grass by {
                assert(rest[k] == coasts[k]);
            }
        }
        lemma_coast_paint(rest, p, beneath);
        assert(coasts[coasts.len() - 1] == coasts.last());
        if covered(rest, p) {
            let k = choose|k: int| 0 <= k < rest.len() && (#[trigger] rest[k]).inner@.contains(p);
            assert(coasts[k].inner@.contains(p));
        }
        if covered(coasts, p) && !coasts.last().inner@.contains(p) {
            let k = choose|k: int|
                0 <= k < coasts.len() && (#[trigger] coasts[k]).inner@.contains(p);
            assert(rest[k].inner@.contains(p));
        }
    }
}

/// A cell of a mountain is painted mountain or lava; a cell of no mountain stays what
/// lies beneath.
pub proof fn lemma_mountain_paint(mountains: Seq<Mountain>, p: Vector2, beneath: PreTileType)
    ensures
        covered(upland_zones(mountains), p) || pooled(mountains, p) ==> mountain_paint(
            mountains,
            p,
            beneath,
        ) == PreTileType::Mountain || mountain_paint(mountains, p, beneath) == PreTileType::Lava,
        !(covered(upland_zones(mountains), p) || pooled(mountains, p)) ==> mountain_paint(
            mountains,
            p,
            beneath,
        ) == beneath,
    decreases mountains.len(),
{
    if mountains.len() > 0 {
        let rest = mountains.drop_last();
        let last = mountains.last();
        lemma_mountain_paint(rest, p, beneath);
        assert(mountains[mountains.len() - 1] == last);
        assert(upland_zones(mountains)[mountains.len() - 1] == last.zone);
        if covered(upland_zones(rest), p) {
            let k = choose|k: int|
                0 <= k < upland_zones(rest).len() && (#[trigger] upland_zones(
                    rest,
                )[k]).inner@.contains(p);
            assert(upland_zones(mountains)[k].inner@.contains(p));
        }
        if pooled(rest, p) {
            let k = choose|k: int| 0 <= k < rest.len() && covered((#[trigger] rest[k]).lava_pools@, p);
            assert(mountains[k] == rest[k]);
        }
        if covered(upland_zones(mountains), p) && !last.zone.inner@.contains(p) {
            let k = choose|k: int|
                0 <= k < upland_zones(mountains).len() && (#[trigger] upland_zones(
                    mountains,
                )[k]).inner@.contains(p);
            assert(upland_zones(rest)[k].inner@.contains(p));
        }
        if pooled(mountains, p) && !covered(last.lava_pools@, p) {
            let k = choose|k: int|
                0 <= k < mountains.len() && covered((#[trigger] mountains[k]).lava_pools@, p);
            assert(rest[k] == mountains[k]);
        }
    }
}

/// Painting gives every cell of a region a terrain and leaves the other cells alone.
pub proof fn lemma_paint_of(zones: Zones, p: Vector2, beneath: PreTileType)
    requires
        coasts_painted(zones.coasts@),
    ensures
        claimed(zones, p) ==> is_region_terrain(paint_of(zones, p, beneath)),
        !claimed(zones, p) ==> paint_of(zones, p, beneath) == beneath,
{
    lemma_coast_paint(zones.coasts@, p, beneath);
    lemma_mountain_paint(zones.mountains@, p, coast_paint(zones.coasts@, p, beneath));
}

/// Every cell of every region of `zones` lies within the rows of the grid.
pub open spec fn zones_within<T>(g: Seq<Vec<T>>, zones: Zones) -> bool {
    &&& all_within(g, zones.coasts@)
    &&& all_within(g, zones.cities@)
    &&& all_within(g, zones.hills@)
    &&& mountains_within(g, zones.mountains@)
}

/// Regions whose cells all lie on a rectangular grid lie within its rows.
pub proof fn lemma_claims_within<T>(g: Seq<Vec<T>>, rows: usize, columns: usize, zones: Zones)
    requires
        rectangular(g, rows, columns),
        forall|p: Vector2| claimed(zones, p) ==> on_grid(p, rows, columns),
    ensures
        zones_within(g, zones),
{
    assert forall|k: int| 0 <= k < zones.coasts@.len() implies within(
        g,
        (#[trigger] zones.coasts@[k]).inner@,
    ) by {
        let cells = zones.coasts@[k].inner@;
        assert forall|c: int| 0 <= c < cells.len() implies (#[trigger] cells[c]).x < g.len()
            && cells[c].y < g[cells[c].x as int].len() by {
            assert(cells.contains(cells[c]));
            assert(covered(zones.coasts@, cells[c]));
            assert(claimed(zones, cells[c]));
            assert(on_grid(cells[c], rows, columns));
            assert(g[cells[c].x as int].len() == columns);
        }
    }
    assert forall|k: int| 0 <= k < zones.cities@.len() implies within(
        g,
        (#[trigger] zones.cities@[k]).inner@,
    ) by {
        let cells = zones.cities@[k].inner@;
        assert forall|c: int| 0 <= c < cells.len() implies (#[trigger] cells[c]).x < g.len()
            && cells[c].y < g[cells[c].x as int].len() by {
            assert(cells.contains(cells[c]));
            assert(covered(zones.cities@, cells[c]));
            assert(claimed(zones, cells[c]));
            assert(on_grid(cells[c], rows, columns));
            assert(g[cells[c].x as int].len() == columns);
        }
    }
    assert forall|k: int| 0 <= k < zones.hills@.len() implies within(
        g,
        (#[trigger] zones.hills@[k]).inner@,
    ) by {
        let cells = zones.hills@[k].inner@;
        assert forall|c: int| 0 <= c < cells.len() implies (#[trigger] cells[c]).x < g.len()
            && cells[c].y < g[cells[c].x as int].len() by {
            assert(cells.contains(cells[c]));
            assert(covered(zones.hills@, cells[c]));
            assert(claimed(zones, cells[c]));
            assert(on_grid(cells[c], rows, columns));
            assert(g[cells[c].x as int].len() == columns);
        }
    }
    assert forall|k: int| 0 <= k < zones.mountains@.len() implies within(
        g,
        (#[trigger] zones.mountains@[k]).zone.inner@,
    ) && all_within(g, zones.mountains@[k].lava_pools@) by {
        let cells = zones.mountains@[k].zone.inner@;
        assert forall|c: int| 0 <= c < cells.len() implies (#[trigger] cells[c]).x < g.len()
            && cells[c].y < g[cells[c].x as int].len() by {
            assert(cells.contains(cells[c]));
            assert(upland_zones(zones.mountains@)[k].inner@.contains(cells[c]));
            assert(covered(upland_zones(zones.mountains@), cells[c]));
            assert(claimed(zones, cells[c]));
            assert(on_grid(cells[c], rows, columns));
            assert(g[cells[c].x as int].len() == columns);
        }
        let pools = zones.mountains@[k].lava_pools@;
        assert forall|j: int| 0 <= j < pools.len() implies within(g, (#[trigger] pools[j]).inner@) by {
            let cells = pools[j].inner@;
            assert forall|c: int| 0 <= c < cells.len() implies (#[trigger] cells[c]).x < g.len()
                && cells[c].y < g[cells[c].x as int].len() by {
                assert(cells.contains(cells[c]));
                assert(covered(pools, cells[c]));
                assert(pooled(zones.mountains@, cells[c]));
            assert(claimed(zones, cells[c]));
            assert(on_grid(cells[c], rows, columns));
            assert(g[cells[c].x as int].len() == columns);
            }
        }
    }
}

/// What painting leaves of the regions: the same cells, with their categories.
pub open spec fn painted_zones(before: Zones, after: Zones) -> bool {
    &&& same_cells(before.coasts@, after.coasts@)
    &&& coasts_painted(after.coasts@)
    &&& same_mountains(before.mountains@, after.mountains@)
    &&& same_cells(before.cities@, after.cities@)
    &&& forall|k: int|
        0 <= k < after.cities@.len() ==> (#[trigger] after.cities@[k]).tile == PreTileType::Grass
    &&& same_cells(before.hills@, after.hills@)
    &&& forall|k: int|
        0 <= k < after.hills@.len() ==> (#[trigger] after.hills@[k]).tile == PreTileType::Hill
}

/// Painted regions claim the cells that they claimed before.
pub proof fn lemma_painted_claims(before: Zones, after: Zones, p: Vector2)
    requires
        painted_zones(before, after),
    ensures
        claimed(after, p) <==> claimed(before, p),
{
    lemma_same_cells_cover(before.coasts@, after.coasts@, p);
    lemma_same_cells_cover(before.cities@, after.cities@, p);
    lemma_same_cells_cover(before.hills@, after.hills@, p);
    let b = before.mountains@;
    let a = after.mountains@;
    if covered(upland_zones(b), p) {
        let k = choose|k: int|
            0 <= k < upland_zones(b).len() && (#[trigger] upland_zones(b)[k]).inner@.contains(p);
        assert(a[k].zone.inner == b[k].zone.inner);
        assert(upland_zones(a)[k].inner@.contains(p));
    }
    if covered(upland_zones(a), p) {
        let k = choose|k: int|
            0 <= k < upland_zones(a).len() && (#[trigger] upland_zones(a)[k]).inner@.contains(p);
        assert(a[k].zone.inner == b[k].zone.inner);
        assert(upland_zones(b)[k].inner@.contains(p));
    }
    if pooled(b, p) {
        let k = choose|k: int| 0 <= k < b.len() && covered((#[trigger] b[k]).lava_pools@, p);
        assert(same_cells(b[k].lava_pools@, a[k].lava_pools@));
        lemma_same_cells_cover(b[k].lava_pools@, a[k].lava_pools@, p);
    }
    if pooled(a, p) {
        let k = choose|k: int| 0 <= k < a.len() && covered((#[trigger] a[k]).lava_pools@, p);
        assert(same_cells(b[k].lava_pools@, a[k].lava_pools@));
        lemma_same_cells_cover(b[k].lava_pools@, a[k].lava_pools@, p);
    }
}

impl Zones {
    /// Gives every region its category and writes it on the cells of the
    /// region: the coasts get sand or grass, as the generator chooses; of the
    /// mountains the pools get lava and the upland regions mountain; the
    /// settlements get grass and the foothills hill.
    pub fn fill(&mut self, world: &mut Vec<Vec<PreTileType>>, rng: &mut StdRng)
        requires
            zones_within(old(world)@, *old(self)),
        ensures
            painted_zones(*old(self), *final(self)),
            same_shape(old(world)@, final(world)@),
            forall|p: Vector2|
                inside(old(world)@, p) ==> #[trigger] cell_at(final(world)@, p) == paint_of(
                    *final(self),
                    p,
                    cell_at(old(world)@, p),
                ),
    {
        let ghost before = world@;
        let ghost given = *self;
        paint_coasts(&mut self.coasts, world, rng);
        let ghost coasted = world@;
        proof {
            assert(mountains_within(coasted, self.mountains@)) by {
                assert forall|k: int| 0 <= k < self.mountains@.len() implies within(
                    coasted,
                    (#[trigger] self.mountains@[k]).zone.inner@,
                ) && all_within(coasted, self.mountains@[k].lava_pools@) by {
                    lemma_within_same_shape(before, coasted, self.mountains@[k].zone.inner@);
                    let pools = self.mountains@[k].lava_pools@;
                    assert forall|j: int| 0 <= j < pools.len() implies within(
                        coasted,
                        (#[trigger] pools[j]).inner@,
                    ) by {
                        lemma_within_same_shape(before, coasted, pools[j].inner@);
                    }
                }
            }
        }
        paint_mountains(&mut self.mountains, world);
        let ghost mounted = world@;
        proof {
            assert(same_shape(before, mounted)) by {
                assert forall|r: int| 0 <= r < before.len() implies (#[trigger] before[r]).len()
                    == mounted[r].len() by {
                    assert(coasted[r].len() == before[r].len());
                }
            }
            assert forall|k: int| 0 <= k < self.cities@.len() implies within(
                mounted,
                (#[trigger] self.cities@[k]).inner@,
            ) by {
                lemma_within_same_shape(before, mounted, self.cities@[k].inner@);
            }
        }
        paint_list(&mut self.cities, world, PreTileType::Grass);
        let ghost settled = world@;
        proof {
            assert(same_shape(before, settled)) by {
                assert forall|r: int| 0 <= r < before.len() implies (#[trigger] before[r]).len()
                    == settled[r].len() by {
                    assert(mounted[r].len() == before[r].len());
                }
            }
            assert forall|k: int| 0 <= k < self.hills@.len() implies within(
                settled,
                (#[trigger] self.hills@[k]).inner@,
            ) by {
                lemma_within_same_shape(before, settled, self.hills@[k].inner@);
            }
        }
        paint_list(&mut self.hills, world, PreTileType::Hill);
        proof {
            assert(same_shape(before, world@)) by {
                assert forall|r: int| 0 <= r < before.len() implies (#[trigger] before[r]).len()
                    == world@[r].len() by {
                    assert(settled[r].len() == before[r].len());
                }
            }
            assert forall|p: Vector2| inside(before, p) implies #[trigger] cell_at(world@, p)
                == paint_of(*self, p, cell_at(before, p)) by {
                assert(inside(coasted, p) && inside(mounted, p) && inside(settled, p));
                lemma_same_cells_cover(given.cities@, self.cities@, p);
                lemma_same_cells_cover(given.hills@, self.hills@, p);
                assert(cell_at(coasted, p) == coast_paint(self.coasts@, p, cell_at(before, p)));
                assert(cell_at(mounted, p) == mountain_paint(
                    self.mountains@,
                    p,
                    cell_at(coasted, p),
                ));
                assert(cell_at(settled, p) == list_paint(
                    given.cities@,
                    p,
                    PreTileType::Grass,
                    cell_at(mounted, p),
                ));
                assert(cell_at(world@, p) == list_paint(
                    given.hills@,
                    p,
                    PreTileType::Hill,
                    cell_at(settled, p),
                ));
            }
        }
    }
}

/// Every region holds cells of the category that its role comes from: the
/// coasts hold coast cells, the upland regions upland cells, the pools hazard
/// cells, and the settlements and foothills upland and hazard cells; and all
/// of them lie on the grid.
pub open spec fn well_typed(
    before: Seq<Vec<PreTileType>>,
    rows: usize,
    columns: usize,
    zones: Zones,
) -> bool {
    &&& forall|p: Vector2|
        #[trigger] covered(zones.coasts@, p) ==> on_grid(p, rows, columns) && in_category(
            before,
            COAST,
            p,
        )
    &&& forall|p: Vector2|
        #[trigger] covered(upland_zones(zones.mountains@), p) ==> on_grid(p, rows, columns)
            && in_category(before, UPLAND, p)
    &&& forall|p: Vector2|
        #[trigger] pooled(zones.mountains@, p) ==> on_grid(p, rows, columns) && in_category(
            before,
            HAZARD,
            p,
        )
    &&& forall|p: Vector2|
        #[trigger] covered(zones.cities@, p) ==> on_grid(p, rows, columns) && (in_category(
            before,
            UPLAND,
            p,
        ) || in_category(before, HAZARD, p))
    &&& forall|p: Vector2|
        #[trigger] covered(zones.hills@, p) ==> on_grid(p, rows, columns) && (in_category(
            before,
            UPLAND,
            p,
        ) || in_category(before, HAZARD, p))
}

/// The regions that a scan finds are well typed.
proof fn lemma_found_typed(
    before: Seq<Vec<PreTileType>>,
    after: Seq<Vec<PreTileType>>,
    rows: usize,
    columns: usize,
    zones: Zones,
)
    requires
        zones_found(before, after, rows, columns, zones),
    ensures
        well_typed(before, rows, columns, zones),
{
    lemma_cover_is_whole(before, rows, columns, COAST, zones.coasts@);
    lemma_taken_is_whole(before, rows, columns, zones.mountains@);
    assert forall|p: Vector2| #[trigger] pooled(zones.mountains@, p) implies on_grid(
        p,
        rows,
        columns,
    ) && in_category(before, HAZARD, p) by {
        lemma_pooled(zones.mountains@, p);
    }
    assert forall|p: Vector2| #[trigger] covered(zones.cities@, p) implies on_grid(
        p,
        rows,
        columns,
    ) && (in_category(before, UPLAND, p) || in_category(before, HAZARD, p)) by {
        let k = choose|k: int|
            0 <= k < zones.cities@.len() && (#[trigger] zones.cities@[k]).inner@.contains(p);
    }
    assert forall|p: Vector2| #[trigger] covered(zones.hills@, p) implies on_grid(p, rows, columns)
        && (in_category(before, UPLAND, p) || in_category(before, HAZARD, p)) by {
        let k = choose|k: int|
            0 <= k < zones.hills@.len() && (#[trigger] zones.hills@[k]).inner@.contains(p);
    }
}

/// Mountains in another order are as well typed as they were.
proof fn lemma_permuted_typed(
    grid: Seq<Vec<PreTileType>>,
    rows: usize,
    columns: usize,
    before: Zones,
    after: Zones,
    order: Seq<int>,
    back: Seq<int>,
)
    requires
        well_typed(grid, rows, columns, before),
        permuted(before.mountains@, after.mountains@, order, back),
        after.coasts == before.coasts,
        after.cities == before.cities,
        after.hills == before.hills,
    ensures
        well_typed(grid, rows, columns, after),
{
    assert forall|p: Vector2| #[trigger]
        covered(upland_zones(after.mountains@), p) implies on_grid(p, rows, columns) && in_category(
        grid,
        UPLAND,
        p,
    ) by {
        lemma_permuted_mountains(before.mountains@, after.mountains@, order, back, p);
    }
    assert forall|p: Vector2| #[trigger] pooled(after.mountains@, p) implies on_grid(
        p,
        rows,
        columns,
    ) && in_category(grid, HAZARD, p) by {
        lemma_permuted_mountains(before.mountains@, after.mountains@, order, back, p);
    }
}

/// Promotion keeps the regions well typed.
proof fn lemma_promote_typed(
    grid: Seq<Vec<PreTileType>>,
    rows: usize,
    columns: usize,
    before: Zones,
    after: Zones,
)
    requires
        well_typed(grid, rows, columns, before),
        promoted_from(before, after),
    ensures
        well_typed(grid, rows, columns, after),
{
    let n = before.mountains@.len() as int;
    let had = before.cities@.len() as int;
    let old_ms = before.mountains@;
    let new_ms = after.mountains@;
    assert forall|p: Vector2| #[trigger] covered(upland_zones(new_ms), p) implies on_grid(
        p,
        rows,
        columns,
    ) && in_category(grid, UPLAND, p) by {
        let k = choose|k: int|
            0 <= k < upland_zones(new_ms).len() && (#[trigger] upland_zones(
                new_ms,
            )[k]).inner@.contains(p);
        assert(new_ms[k] == old_ms[k]);
        assert(upland_zones(old_ms)[k].inner@.contains(p));
        assert(covered(upland_zones(old_ms), p));
    }
    assert forall|p: Vector2| #[trigger] pooled(new_ms, p) implies on_grid(p, rows, columns)
        && in_category(grid, HAZARD, p) by {
        let k = choose|k: int| 0 <= k < new_ms.len() && covered((#[trigger] new_ms[k]).lava_pools@, p);
        assert(new_ms[k] == old_ms[k]);
        assert(covered(old_ms[k].lava_pools@, p));
        assert(pooled(old_ms, p));
    }
    assert forall|p: Vector2| #[trigger] covered(after.cities@, p) implies on_grid(p, rows, columns)
        && (in_category(grid, UPLAND, p) || in_category(grid, HAZARD, p)) by {
        let k = choose|k: int|
            0 <= k < after.cities@.len() && (#[trigger] after.cities@[k]).inner@.contains(p);
        if k < had {
            assert(after.cities@[k] == before.cities@[k]);
            assert(before.cities@[k].inner@.contains(p));
            assert(covered(before.cities@, p));
        } else {
            let i = k - had;
            assert(is_city_of(after.cities@[had + i], old_ms[n - 1 - i]));
            lemma_city_cells(after.cities@[k], old_ms[n - 1 - i], p);
            if old_ms[n - 1 - i].zone.inner@.contains(p) {
                assert(upland_zones(old_ms)[n - 1 - i].inner@.contains(p));
                assert(covered(upland_zones(old_ms), p));
            } else {
                assert(pooled(old_ms, p));
            }
        }
    }
}

/// Demotion keeps the regions well typed.
proof fn lemma_demote_typed(
    grid: Seq<Vec<PreTileType>>,
    rows: usize,
    columns: usize,
    before: Zones,
    after: Zones,
)
    requires
        well_typed(grid, rows, columns, before),
        demoted_from(before, after),
    ensures
        well_typed(grid, rows, columns, after),
{
    let n = before.cities@.len() as int;
    let had = before.hills@.len() as int;
    assert forall|p: Vector2| #[trigger] covered(after.cities@, p) implies on_grid(p, rows, columns)
        && (in_category(grid, UPLAND, p) || in_category(grid, HAZARD, p)) by {
        let k = choose|k: int|
            0 <= k < after.cities@.len() && (#[trigger] after.cities@[k]).inner@.contains(p);
        assert(before.cities@[k].inner@.contains(p));
        assert(covered(before.cities@, p));
    }
    assert forall|p: Vector2| #[trigger] covered(after.hills@, p) implies on_grid(p, rows, columns)
        && (in_category(grid, UPLAND, p) || in_category(grid, HAZARD, p)) by {
        let k = choose|k: int|
            0 <= k < after.hills@.len() && (#[trigger] after.hills@[k]).inner@.contains(p);
        if k < had {
            assert(before.hills@[k].inner@.contains(p));
            assert(covered(before.hills@, p));
        } else {
            assert(before.cities@[n - 1 - (k - had)].inner@.contains(p));
            assert(covered(before.cities@, p));
        }
    }
}

/// Painting keeps the regions well typed.
proof fn lemma_painted_typed(
    grid: Seq<Vec<PreTileType>>,
    rows: usize,
    columns: usize,
    before: Zones,
    after: Zones,
)
    requires
        well_typed(grid, rows, columns, before),
        painted_zones(before, after),
    ensures
        well_typed(grid, rows, columns, after),
{
    let b = before.mountains@;
    let a = after.mountains@;
    assert forall|p: Vector2| #[trigger] covered(after.coasts@, p) implies on_grid(p, rows, columns)
        && in_category(grid, COAST, p) by {
        lemma_same_cells_cover(before.coasts@, after.coasts@, p);
    }
    assert forall|p: Vector2| #[trigger] covered(after.cities@, p) implies on_grid(p, rows, columns)
        && (in_category(grid, UPLAND, p) || in_category(grid, HAZARD, p)) by {
        lemma_same_cells_cover(before.cities@, after.cities@, p);
    }
    assert forall|p: Vector2| #[trigger] covered(after.hills@, p) implies on_grid(p, rows, columns)
        && (in_category(grid, UPLAND, p) || in_category(grid, HAZARD, p)) by {
        lemma_same_cells_cover(before.hills@, after.hills@, p);
    }
    assert forall|p: Vector2| #[trigger] covered(upland_zones(a), p) implies on_grid(
        p,
        rows,
        columns,
    ) && in_category(grid, UPLAND, p) by {
        let k = choose|k: int|
            0 <= k < upland_zones(a).len() && (#[trigger] upland_zones(a)[k]).inner@.contains(p);
        assert(a[k].zone.inner == b[k].zone.inner);
        assert(upland_zones(b)[k].inner@.contains(p));
        assert(covered(upland_zones(b), p));
    }
    assert forall|p: Vector2| #[trigger] pooled(a, p) implies on_grid(p, rows, columns)
        && in_category(grid, HAZARD, p) by {
        let k = choose|k: int| 0 <= k < a.len() && covered((#[trigger] a[k]).lava_pools@, p);
        assert(same_cells(b[k].lava_pools@, a[k].lava_pools@));
        lemma_same_cells_cover(b[k].lava_pools@, a[k].lava_pools@, p);
        assert(pooled(b, p));
    }
}

/// An upland cell of a mountain is painted as mountain, a cell of a pool as lava.
pub proof fn lemma_mountain_paint_each(mountains: Seq<Mountain>, p: Vector2, beneath: PreTileType)
    ensures
        covered(upland_zones(mountains), p) && !pooled(mountains, p) ==> mountain_paint(
            mountains,
            p,
            beneath,
        ) == PreTileType::Mountain,
        pooled(mountains, p) && !covered(upland_zones(mountains), p) ==> mountain_paint(
            mountains,
            p,
            beneath,
        ) == PreTileType::Lava,
    decreases mountains.len(),
{
    if mountains.len() > 0 {
        let rest = mountains.drop_last();
        let last = mountains.last();
        lemma_mountain_paint_each(rest, p, beneath);
        assert(mountains[mountains.len() - 1] == last);
        assert(upland_zones(mountains)[mountains.len() - 1] == last.zone);
        if covered(upland_zones(rest), p) {
            let k = choose|k: int|
                0 <= k < upland_zones(rest).len() && (#[trigger] upland_zones(
                    rest,
                )[k]).inner@.contains(p);
            assert(upland_zones(mountains)[k].inner@.contains(p));
        }
        if pooled(rest, p) {
            let k = choose|k: int| 0 <= k < rest.len() && covered((#[trigger] rest[k]).lava_pools@, p);
            assert(mountains[k] == rest[k]);
        }
        if covered(upland_zones(mountains), p) && !last.zone.inner@.contains(p) {
            let k = choose|k: int|
                0 <= k < upland_zones(mountains).len() && (#[trigger] upland_zones(
                    mountains,
                )[k]).inner@.contains(p);
            assert(upland_zones(rest)[k].inner@.contains(p));
        }
        if pooled(mountains, p) && !covered(last.lava_pools@, p) {
            let k = choose|k: int|
                0 <= k < mountains.len() && covered((#[trigger] mountains[k]).lava_pools@, p);
            assert(rest[k] == mountains[k]);
        }
    }
}

/// The centroids of the regions of a list.
pub open spec fn centroids(regions: Seq<Zone>) -> Seq<Vector2> {
    Seq::new(regions.len(), |k: int| regions[k].centroid)
}

/// `chain` holds the anchors in the order of the chain and `paths` the roads
/// laid along it: the chain begins with the first anchor, each of its anchors
/// is followed by the nearest of those behind it, and the paths are the links
/// from each anchor of the chain to the next.
pub open spec fn is_road_plan<T: Walkable + Paved>(
    before: Seq<Vec<T>>,
    after: Seq<Vec<T>>,
    anchors: Seq<Vector2>,
    chain: Seq<Vector2>,
    order: Seq<int>,
    paths: Seq<Seq<Vector2>>,
) -> bool {
    &&& rearranged(anchors, chain, order)
    &&& is_chained(chain)
    &&& (anchors.len() > 0 ==> chain[0] == anchors[0])
    &&& is_network(before, after, chain, paths)
}

/// Roads have been laid between the anchors: the anchors have been chained,
/// each to the nearest of those not chained yet, beginning with the first; a
/// road has been laid along the cheapest path from each anchor of the chain to
/// the next, unless the search for it was refused; and no other cell has changed.
pub open spec fn networked<T: Walkable + Paved>(
    before: Seq<Vec<T>>,
    after: Seq<Vec<T>>,
    anchors: Seq<Vector2>,
) -> bool {
    &&& (anchors.len() < 2 ==> after == before)
    &&& exists|chain: Seq<Vector2>, order: Seq<int>, paths: Seq<Seq<Vector2>>| #[trigger]
        is_road_plan(before, after, anchors, chain, order, paths)
}

/// Laying roads keeps the shape of the grid.
pub proof fn lemma_networked_shape<T: Walkable + Paved>(
    before: Seq<Vec<T>>,
    after: Seq<Vec<T>>,
    anchors: Seq<Vector2>,
)
    requires
        networked(before, after, anchors),
    ensures
        same_shape(before, after),
{
    let (chain, order, paths) = choose|
        chain: Seq<Vector2>,
        order: Seq<int>,
        paths: Seq<Seq<Vector2>>,
    | #[trigger] is_road_plan(before, after, anchors, chain, order, paths);
    lemma_roads_only_pave(before, after, paths);
}

/// Laying roads changes no cell but by paving it.
pub proof fn lemma_networked_only_paves<T: Walkable + Paved>(
    before: Seq<Vec<T>>,
    after: Seq<Vec<T>>,
    anchors: Seq<Vector2>,
    p: Vector2,
)
    requires
        networked(before, after, anchors),
        inside(before, p),
    ensures
        same_shape(before, after),
        cell_at(after, p) == cell_at(before, p) || cell_at(after, p) == cell_at(before, p).paved(),
{
    let (chain, order, paths) = choose|
        chain: Seq<Vector2>,
        order: Seq<int>,
        paths: Seq<Seq<Vector2>>,
    | #[trigger] is_road_plan(before, after, anchors, chain, order, paths);
    lemma_roads_only_pave(before, after, paths);
}

/// What becomes of a category that classification has left on a cell: a hazard
/// that no upland region has taken is lava, any other provisional category and
/// the placeholder are grass, and a terrain stays what it is.
pub open spec fn settled_category(c: PreTileType) -> PreTileType {
    match c {
        PreTileType::Zone(id) => if id == HAZARD {
            PreTileType::Lava
        } else {
            PreTileType::Grass
        },
        PreTileType::Void => PreTileType::Grass,
        other => other,
    }
}

/// Gives every cell that classification has left without a terrain the
/// terrain that `settled_category` names.
pub fn resolve_leftovers(world: &mut Vec<Vec<PreTileType>>)
    ensures
        same_shape(old(world)@, final(world)@),
        forall|p: Vector2|
            inside(old(world)@, p) ==> #[trigger] cell_at(final(world)@, p) == settled_category(
                cell_at(old(world)@, p),
            ),
{
    let ghost before = world@;
    let mut x: usize = 0;
    while x < world.len()
        invariant
            x <= world.len(),
            same_shape(before, world@),
            forall|p: Vector2|
                inside(before, p) ==> #[trigger] cell_at(world@, p) == (if p.x < x {
                    settled_category(cell_at(before, p))
                } else {
                    cell_at(before, p)
                }),
        decreases world.len() - x,
    {
        let mut y: usize = 0;
        while y < world[x].len()
            invariant
                x < world.len(),
                y <= world[x as int].len(),
                same_shape(before, world@),
                forall|p: Vector2|
                    inside(before, p) ==> #[trigger] cell_at(world@, p) == (if p.x < x || (p.x == x
                        && p.y < y) {
                        settled_category(cell_at(before, p))
                    } else {
                        cell_at(before, p)
                    }),
            decreases world[x as int].len() - y,
        {
            let ghost now = world@;
            let settled = match world[x][y] {
                PreTileType::Zone(id) => if id == HAZARD {
                    PreTileType::Lava
                } else {
                    PreTileType::Grass
                },
                PreTileType::Void => PreTileType::Grass,
                other => other,
            };
            world[x][y] = settled;
            proof {
                let here = Vector2 { x, y };
                assert(cell_at(now, here) == cell_at(before, here));
                assert forall|r: int| 0 <= r < before.len() implies (#[trigger] before[r]).len()
                    == world@[r].len() by {
                    assert(now[r].len() == before[r].len());
                    if r != x {
                        assert(world@[r] == now[r]);
                    }
                }
                assert forall|p: Vector2| inside(before, p) implies #[trigger] cell_at(world@, p)
                    == (if p.x < x || (p.x == x && p.y < y + 1) {
                    settled_category(cell_at(before, p))
                } else {
                    cell_at(before, p)
                }) by {
                    assert(now[p.x as int].len() == before[p.x as int].len());
                    if p != here {
                        if p.x != x {
                            assert(world@[p.x as int] == now[p.x as int]);
                        }
                        assert(cell_at(world@, p) == cell_at(now, p));
                    }
                }
            }
            y += 1;
        }
        x += 1;
    }
}

/// The regions are the coast regions of the grid, in reading order.
pub open spec fn are_coasts(
    before: Seq<Vec<PreTileType>>,
    rows: usize,
    columns: usize,
    coasts: Seq<Zone>,
) -> bool {
    &&& are_regions(before, rows, columns, COAST, coasts)
    &&& in_reading_order(coasts)
    &&& forall|p: Vector2|
        on_grid(p, rows, columns) ==> (#[trigger] in_category(before, COAST, p) <==> covered(
            coasts,
            p,
        ))
}

/// The mountains are the upland regions of the grid, in reading order, each
/// with the hazard pools next to it that no earlier one has taken: every
/// upland cell belongs to exactly one of the upland regions, the pools are
/// whole hazard regions, and every hazard cell next to an upland cell is in a pool.
pub open spec fn are_uplands(
    before: Seq<Vec<PreTileType>>,
    rows: usize,
    columns: usize,
    found: Seq<Mountain>,
) -> bool {
    &&& are_regions(before, rows, columns, UPLAND, upland_zones(found))
    &&& in_reading_order(upland_zones(found))
    &&& forall|p: Vector2|
        on_grid(p, rows, columns) ==> (#[trigger] in_category(before, UPLAND, p) <==> covered(
            upland_zones(found),
            p,
        ))
    &&& are_regions(before, rows, columns, HAZARD, all_pools(found))
    &&& forall|k: int| 0 <= k < found.len() ==> mountain_ok(#[trigger] found[k])
    &&& forall|m: Vector2, q: Vector2|
        #[trigger] covered(upland_zones(found), m) && on_grid(q, rows, columns)
            && #[trigger] adjacent(m, q) && in_category(before, HAZARD, q) ==> covered(
            all_pools(found),
            q,
        )
}

/// The region has the cells of the upland region of the mountain, then those
/// of its pools, and their centroid.
pub open spec fn grew_from(region: Zone, mountain: Mountain) -> bool {
    &&& region.inner@ == mountain.zone.inner@ + joined(mountain.lava_pools@)
    &&& region.centroid == centroid_of(region.inner@)
}

/// How the upland regions of a grid were dealt out: `found` are the upland
/// regions as the scan found them, `mixed` the same in the order that the
/// generator gave them, and `promoted` the settlements in the order of their
/// promotion; `order` and `back`, `turn` and `turn_back` tell how the lists
/// were rearranged.
pub struct Allotment {
    pub found: Seq<Mountain>,
    pub mixed: Seq<Mountain>,
    pub order: Seq<int>,
    pub back: Seq<int>,
    pub promoted: Seq<Zone>,
    pub turn: Seq<int>,
    pub turn_back: Seq<int>,
}

/// The regions of `zones` are the upland regions of the grid, dealt out: of
/// the mixed list of the `n` upland regions the leading ones are the
/// mountains; of the last two thirds, taken from the end, the first half are
/// the settlements, in some order, and the rest the foothills; and each
/// settlement and each foothill has grown from one upland region and its pools.
pub open spec fn is_allotment(
    before: Seq<Vec<PreTileType>>,
    rows: usize,
    columns: usize,
    zones: Zones,
    lot: Allotment,
) -> bool {
    let n = lot.mixed.len() as int;
    let k = promoted_count(n);
    let h = demoted_count(k);
    &&& are_uplands(before, rows, columns, lot.found)
    &&& permuted(lot.found, lot.mixed, lot.order, lot.back)
    &&& same_mountains(lot.mixed.take(n - k), zones.mountains@)
    &&& lot.promoted.len() == k - h
    &&& forall|i: int|
        0 <= i < k - h ==> grew_from(#[trigger] lot.promoted[i], lot.mixed[n - 1 - i])
    &&& permuted(lot.promoted, zones.cities@, lot.turn, lot.turn_back)
    &&& zones.hills@.len() == h
    &&& forall|j: int| 0 <= j < h ==> grew_from(#[trigger] zones.hills@[j], lot.mixed[n - k + j])
}

/// The outcome of classification. The coasts are the coast regions of the
/// grid, each sand or grass; mountains, settlements and foothills are the
/// upland regions of the grid, dealt out as `is_allotment` says; every cell of
/// a region has the terrain of the region, every other cell the terrain that
/// `settled_category` gives it, unless a road crosses it; and no cell is left
/// without a terrain.
#[verifier::opaque]
pub open spec fn classified(
    before: Seq<Vec<PreTileType>>,
    after: Seq<Vec<PreTileType>>,
    rows: usize,
    columns: usize,
    zones: Zones,
) -> bool {
    &&& rectangular(after, rows, columns)
    &&& are_coasts(before, rows, columns, zones.coasts@)
    &&& coasts_painted(zones.coasts@)
    &&& exists|lot: Allotment| #[trigger] is_allotment(before, rows, columns, zones, lot)
    &&& well_typed(before, rows, columns, zones)
    &&& zones.cities@.len() + zones.hills@.len() == promoted_count(
        (zones.mountains@.len() + zones.cities@.len() + zones.hills@.len()) as int,
    )
    &&& zones.hills@.len() == demoted_count((zones.cities@.len() + zones.hills@.len()) as int)
    &&& forall|p: Vector2|
        on_grid(p, rows, columns) && (in_category(before, COAST, p) || in_category(
            before,
            UPLAND,
            p,
        )) ==> #[trigger] claimed(zones, p)
    &&& forall|p: Vector2|
        on_grid(p, rows, columns) ==> #[trigger] cell_at(after, p) == settled_category(
            paint_of(zones, p, cell_at(before, p)),
        ) || cell_at(after, p) == PreTileType::Road
    &&& forall|p: Vector2|
        on_grid(p, rows, columns) ==> resolved_terrain(#[trigger] cell_at(after, p)) is Some
}

/// The grid is what painting the regions makes of `before`: every cell of a
/// region has the terrain of the region, every other cell the terrain that
/// `settled_category` gives it.
pub open spec fn is_painted(
    before: Seq<Vec<PreTileType>>,
    painted: Seq<Vec<PreTileType>>,
    rows: usize,
    columns: usize,
    zones: Zones,
) -> bool {
    &&& rectangular(painted, rows, columns)
    &&& forall|p: Vector2|
        on_grid(p, rows, columns) ==> #[trigger] cell_at(painted, p) == settled_category(
            paint_of(zones, p, cell_at(before, p)),
        )
}

/// The grid is the painted grid with the roads between the settlements laid:
/// from each settlement of the chain to the next, over the centroids.
pub open spec fn roads_join(
    before: Seq<Vec<PreTileType>>,
    after: Seq<Vec<PreTileType>>,
    rows: usize,
    columns: usize,
    zones: Zones,
) -> bool {
    exists|painted: Seq<Vec<PreTileType>>, paths: Seq<Seq<Vector2>>|
        is_painted(before, painted, rows, columns, zones) && #[trigger] is_network(
            painted,
            after,
            centroids(zones.cities@),
            paths,
        )
}

/// After classification a coast cell is sand or grass, an upland cell is
/// mountain, grass or hill, a hazard cell is lava, grass or hill, and any
/// other cell has the terrain that `settled_category` gives it; and any cell
/// may have become road.
pub proof fn lemma_classified_cells(
    before: Seq<Vec<PreTileType>>,
    after: Seq<Vec<PreTileType>>,
    rows: usize,
    columns: usize,
    zones: Zones,
    p: Vector2,
)
    requires
        classified(before, after, rows, columns, zones),
        on_grid(p, rows, columns),
    ensures
        cell_at(after, p) == PreTileType::Road || if in_category(before, COAST, p) {
            cell_at(after, p) == PreTileType::Sand || cell_at(after, p) == PreTileType::Grass
        } else if in_category(before, UPLAND, p) {
            cell_at(after, p) == PreTileType::Mountain || cell_at(after, p) == PreTileType::Grass
                || cell_at(after, p) == PreTileType::Hill
        } else if in_category(before, HAZARD, p) {
            cell_at(after, p) == PreTileType::Lava || cell_at(after, p) == PreTileType::Grass
                || cell_at(after, p) == PreTileType::Hill
        } else {
            cell_at(after, p) == settled_category(cell_at(before, p))
        },
{
    reveal(classified);
    let was = cell_at(before, p);
    lemma_paint_of(zones, p, was);
    lemma_coast_paint(zones.coasts@, p, was);
    lemma_mountain_paint(zones.mountains@, p, coast_paint(zones.coasts@, p, was));
    lemma_mountain_paint_each(zones.mountains@, p, coast_paint(zones.coasts@, p, was));
    assert(cell_at(after, p) == settled_category(paint_of(zones, p, was)) || cell_at(after, p)
        == PreTileType::Road);
    if in_category(before, COAST, p) || in_category(before, UPLAND, p) {
        assert(claimed(zones, p));
    }
}

/// After classification the grid has its shape and every cell a terrain.
pub proof fn lemma_classified_grid(
    before: Seq<Vec<PreTileType>>,
    after: Seq<Vec<PreTileType>>,
    rows: usize,
    columns: usize,
    zones: Zones,
)
    requires
        classified(before, after, rows, columns, zones),
    ensures
        rectangular(after, rows, columns),
        forall|p: Vector2|
            on_grid(p, rows, columns) ==> resolved_terrain(#[trigger] cell_at(after, p)) is Some,
        forall|p: Vector2| #[trigger] covered(zones.cities@, p) ==> on_grid(p, rows, columns),
{
    reveal(classified);
}

/// Regions with the same cells are the same regions of the grid.
proof fn lemma_same_cells_regions(
    before: Seq<Vec<PreTileType>>,
    rows: usize,
    columns: usize,
    given: Seq<Zone>,
    after: Seq<Zone>,
)
    requires
        are_coasts(before, rows, columns, given),
        same_cells(given, after),
    ensures
        are_coasts(before, rows, columns, after),
{
    assert forall|k: int| 0 <= k < after.len() implies (#[trigger] after[k]).inner@
        == given[k].inner@ && after[k].centroid == given[k].centroid by {}
    assert forall|p: Vector2| covered(given, p) <==> covered(after, p) by {
        lemma_same_cells_cover(given, after, p);
    }
    assert forall|j: int, k: int, p: Vector2|
        0 <= j < k < after.len() && #[trigger] after[j].inner@.contains(p)
            implies !#[trigger] after[k].inner@.contains(p) by {
        assert(given[j].inner@.contains(p));
        assert(!given[k].inner@.contains(p));
    }
    assert forall|j: int, k: int| 0 <= j < k < after.len() implies read_before(
        (#[trigger] after[j]).inner@[0],
        (#[trigger] after[k]).inner@[0].x,
        after[k].inner@[0].y,
    ) by {
        assert(read_before(given[j].inner@[0], given[k].inner@[0].x, given[k].inner@[0].y));
    }
    assert forall|k: int, p: Vector2|
        0 <= k < after.len() && #[trigger] after[k].inner@.contains(p) implies p
        == after[k].inner@[0] || read_before(after[k].inner@[0], p.x, p.y) by {
        assert(given[k].inner@.contains(p));
    }
}

/// Regions in another order cover the same cells.
pub proof fn lemma_permuted_cover(
    before: Seq<Zone>,
    after: Seq<Zone>,
    order: Seq<int>,
    back: Seq<int>,
    p: Vector2,
)
    requires
        permuted(before, after, order, back),
    ensures
        covered(after, p) <==> covered(before, p),
{
    if covered(after, p) {
        let k = choose|k: int| 0 <= k < after.len() && (#[trigger] after[k]).inner@.contains(p);
        assert(after[k] == before[order[k]]);
        assert(before[order[k]].inner@.contains(p));
    }
    if covered(before, p) {
        let k = choose|k: int| 0 <= k < before.len() && (#[trigger] before[k]).inner@.contains(p);
        assert(after[back[k]] == before[order[back[k]]]);
        assert(after[back[k]].inner@.contains(p));
    }
}

/// Promotion, demotion and painting deal the mixed upland regions out.
proof fn lemma_allotted(mixed: Zones, promoted: Zones, demoted: Zones, last: Zones)
    requires
        mixed.cities@.len() == 0,
        mixed.hills@.len() == 0,
        promoted_from(mixed, promoted),
        demoted_from(promoted, demoted),
        painted_zones(demoted, last),
    ensures
        ({
            let n = mixed.mountains@.len() as int;
            let k = promoted_count(n);
            let h = demoted_count(k);
            &&& same_mountains(mixed.mountains@.take(n - k), last.mountains@)
            &&& last.cities@.len() == k - h
            &&& forall|i: int|
                0 <= i < k - h ==> grew_from(#[trigger] last.cities@[i], mixed.mountains@[n - 1 - i])
            &&& last.hills@.len() == h
            &&& forall|j: int|
                0 <= j < h ==> grew_from(#[trigger] last.hills@[j], mixed.mountains@[n - k + j])
        }),
{
    let n = mixed.mountains@.len() as int;
    let k = promoted_count(n);
    let h = demoted_count(k);
    assert forall|i: int| 0 <= i < k - h implies grew_from(
        #[trigger] last.cities@[i],
        mixed.mountains@[n - 1 - i],
    ) by {
        assert(last.cities@[i].inner == demoted.cities@[i].inner);
        assert(demoted.cities@[i] == promoted.cities@[i]);
        assert(is_city_of(promoted.cities@[mixed.cities@.len() + i], mixed.mountains@[n - 1 - i]));
    }
    assert forall|j: int| 0 <= j < h implies grew_from(
        #[trigger] last.hills@[j],
        mixed.mountains@[n - k + j],
    ) by {
        assert(last.hills@[j].inner == demoted.hills@[j].inner);
        assert(demoted.hills@[j] == promoted.cities@[k - 1 - j]);
        assert(is_city_of(
            promoted.cities@[mixed.cities@.len() + (k - 1 - j)],
            mixed.mountains@[n - 1 - (k - 1 - j)],
        ));
    }
}

/// The regions that a scan finds are the coasts and the uplands of the grid.
proof fn lemma_found_regions(
    before: Seq<Vec<PreTileType>>,
    after: Seq<Vec<PreTileType>>,
    rows: usize,
    columns: usize,
    zones: Zones,
)
    requires
        zones_found(before, after, rows, columns, zones),
    ensures
        are_coasts(before, rows, columns, zones.coasts@),
        are_uplands(before, rows, columns, zones.mountains@),
{
}

impl Zones {
    /// Chains the settlements by their centroids and lays the roads between
    /// them: settlement `i + 1` becomes the nearest to settlement `i` of the
    /// settlements behind it, and the cheapest path between the centroids of
    /// the two is paved, unless the search for it is refused. With fewer than
    /// two settlements nothing happens.
    pub fn connect_cities(&mut self, world: &mut Vec<Vec<PreTileType>>)
        ensures
            final(self).coasts == old(self).coasts,
            final(self).hills == old(self).hills,
            final(self).mountains == old(self).mountains,
            exists|order: Seq<int>, back: Seq<int>| #[trigger]
                permuted(old(self).cities@, final(self).cities@, order, back),
            old(self).cities@.len() > 0 ==> final(self).cities@[0] == old(self).cities@[0],
            is_chained(centroids(final(self).cities@)),
            exists|paths: Seq<Seq<Vector2>>| #[trigger]
                is_network(old(world)@, final(world)@, centroids(final(self).cities@), paths),
            old(self).cities@.len() < 2 ==> final(world)@ == old(world)@ && final(self).cities@
                == old(self).cities@,
            final(world).len() == old(world).len(),
    {
        let mut anchors: Vec<Vector2> = Vec::new();
        let mut i: usize = 0;
        while i < self.cities.len()
            invariant
                i <= self.cities.len(),
                *self == *old(self),
                anchors@ =~= centroids(self.cities@.take(i as int)),
            decreases self.cities.len() - i,
        {
            anchors.push(self.cities[i].centroid);
            i += 1;
        }
        let ghost before = world@;
        let ghost given = anchors@;
        let ghost settled = self.cities@;
        let mut plan: Ghost<Plan> = Ghost(blank_plan(given.len()));
        proof {
            assert(self.cities@.take(self.cities@.len() as int) =~= self.cities@);
            lemma_permuted_same(given);
            lemma_permuted_same(settled);
            lemma_no_roads(before);
        }
        if anchors.len() < 2 {
            proof {
                assert(is_chained(anchors@));
                assert(is_network(before, world@, anchors@, plan@.paths));
            }
            return ;
        }
        let mut i: usize = 0;
        while i < anchors.len() - 1
            invariant
                anchors@.len() == given.len(),
                settled.len() == given.len(),
                self.coasts == old(self).coasts,
                self.hills == old(self).hills,
                self.mountains == old(self).mountains,
                anchors@ =~= centroids(self.cities@),
                permuted(settled, self.cities@, plan@.order, plan@.back),
                self.cities@[0] == settled[0],
                chaining(before, world@, given, anchors@, plan@, i as int),
            decreases anchors.len() - 1 - i,
        {
            let ghost listed = self.cities@;
            let ghost was = plan@;
            let (best, next) = chain_step(world, &mut anchors, i, Ghost(before), Ghost(given), plan);
            plan = next;
            exchange(&mut self.cities, i + 1, best);
            proof {
                lemma_permuted_swap(settled, listed, was.order, was.back, i + 1, best as int);
            }
            i += 1;
        }
        proof {
            assert(is_chained(anchors@));
            assert(is_network(before, world@, anchors@, plan@.paths));
            lemma_roads_only_pave(before, world@, plan@.paths);
        }
    }

    /// Finds the regions of the grid and gives every cell its terrain: the
    /// coasts and the uplands are taken out of the grid; two thirds of the
    /// uplands, as the generator picks them, become settlements and half of
    /// those foothills; every region's terrain is written on its cells; and
    /// what is left without a terrain is settled.
    pub fn classify(world: &mut Vec<Vec<PreTileType>>, rng: &mut StdRng) -> (zones: Self)
        requires
            old(world).len() > 0,
            rectangular(old(world)@, old(world).len(), old(world)[0].len()),
        ensures
            final(world).len() == old(world).len(),
            classified(old(world)@, final(world)@, old(world).len(), old(world)[0].len(), zones),
            exists|lot: Allotment| #[trigger]
                is_allotment(old(world)@, old(world).len(), old(world)[0].len(), zones, lot)
                    && lot.promoted == zones.cities@,
            forall|p: Vector2|
                on_grid(p, old(world).len(), old(world)[0].len()) ==> #[trigger] cell_at(
                    final(world)@,
                    p,
                ) == settled_category(paint_of(zones, p, cell_at(old(world)@, p))),
    {
        let ghost before = world@;
        let ghost rows = world.len();
        let ghost columns = world[0].len();
        let mut zones = Self::scan(world);
        let ghost scanned = world@;
        let ghost found = zones;
        shuffle(&mut zones.mountains, rng);
        let ghost mixed = zones;
        let ghost (order, back) = choose|order: Seq<int>, back: Seq<int>| #[trigger]
            permuted(found.mountains@, mixed.mountains@, order, back);
        proof {
            lemma_classify_mixed(before, scanned, rows, columns, found, mixed, order, back);
        }
        zones.promote();
        let ghost promoted = zones;
        zones.demote();
        let ghost demoted = zones;
        proof {
            lemma_classify_dealt(before, scanned, rows, columns, found, mixed, promoted, demoted);
        }
        zones.fill(world, rng);
        let ghost filled = world@;
        resolve_leftovers(world);
        proof {
            lemma_classify_cells(
                before,
                scanned,
                filled,
                world@,
                rows,
                columns,
                found,
                demoted,
                zones,
            );
            lemma_classify_ends(
                before,
                scanned,
                world@,
                rows,
                columns,
                found,
                mixed,
                order,
                back,
                promoted,
                demoted,
                zones,
            );
        }
        zones
    }

    /// Finds the regions of the grid, gives every cell its terrain as
    /// `classify` does, chains the settlements and lays the roads between
    /// them: the grid is the painted grid with the roads of the chain laid.
    pub fn get_zones(world: &mut Vec<Vec<PreTileType>>, rng: &mut StdRng) -> (zones: Self)
        requires
            old(world).len() > 0,
            rectangular(old(world)@, old(world).len(), old(world)[0].len()),
        ensures
            final(world).len() == old(world).len(),
            classified(old(world)@, final(world)@, old(world).len(), old(world)[0].len(), zones),
            is_chained(centroids(zones.cities@)),
            roads_join(old(world)@, final(world)@, old(world).len(), old(world)[0].len(), zones),
    {
        let ghost before = world@;
        let ghost rows = world.len();
        let ghost columns = world[0].len();
        let mut zones = Self::classify(world, rng);
        let ghost sorted = zones;
        let ghost filled = world@;
        zones.connect_cities(world);
        proof {
            let (turn, turn_back) = choose|order: Seq<int>, back: Seq<int>| #[trigger]
                permuted(sorted.cities@, zones.cities@, order, back);
            let paths = choose|paths: Seq<Seq<Vector2>>| #[trigger]
                is_network(filled, world@, centroids(zones.cities@), paths);
            lemma_chained_classified(
                before,
                filled,
                world@,
                rows,
                columns,
                sorted,
                zones,
                turn,
                turn_back,
                paths,
            );
            assert forall|p: Vector2| on_grid(p, rows, columns) implies #[trigger] cell_at(
                filled,
                p,
            ) == settled_category(paint_of(zones, p, cell_at(before, p))) by {
                assert(paint_of(zones, p, cell_at(before, p)) == paint_of(
                    sorted,
                    p,
                    cell_at(before, p),
                ));
            }
            lemma_classified_grid(before, filled, rows, columns, sorted);
            assert(is_painted(before, filled, rows, columns, zones));
            assert(is_network(filled, world@, centroids(zones.cities@), paths));
        }
        zones
    }
}

/// Mountains in the order that the generator gave them claim what they
/// claimed, are as well typed and are none of them empty.
proof fn lemma_classify_mixed(
    before: Seq<Vec<PreTileType>>,
    scanned: Seq<Vec<PreTileType>>,
    rows: usize,
    columns: usize,
    found: Zones,
    mixed: Zones,
    order: Seq<int>,
    back: Seq<int>,
)
    requires
        zones_found(before, scanned, rows, columns, found),
        permuted(found.mountains@, mixed.mountains@, order, back),
        mixed.coasts == found.coasts,
        mixed.cities == found.cities,
        mixed.hills == found.hills,
    ensures
        well_typed(before, rows, columns, mixed),
        forall|p: Vector2| claimed(mixed, p) <==> claimed(found, p),
        forall|k: int|
            0 <= k < mixed.mountains@.len() ==> (#[trigger] mixed.mountains@[k]).zone.inner@.len()
                > 0,
{
    lemma_found_typed(before, scanned, rows, columns, found);
    lemma_permuted_typed(before, rows, columns, found, mixed, order, back);
    assert forall|p: Vector2| claimed(mixed, p) <==> claimed(found, p) by {
        lemma_permuted_mountains(found.mountains@, mixed.mountains@, order, back, p);
    }
    assert forall|k: int| 0 <= k < mixed.mountains@.len() implies (
    #[trigger] mixed.mountains@[k]).zone.inner@.len() > 0 by {
        assert(mixed.mountains@[k] == found.mountains@[order[k]]);
        assert(upland_zones(found.mountains@)[order[k]].inner@.len() > 0);
    }
}

/// Promotion and demotion keep the regions well typed, on the grid and with
/// the cells they claimed.
proof fn lemma_classify_dealt(
    before: Seq<Vec<PreTileType>>,
    scanned: Seq<Vec<PreTileType>>,
    rows: usize,
    columns: usize,
    found: Zones,
    mixed: Zones,
    promoted: Zones,
    demoted: Zones,
)
    requires
        zones_found(before, scanned, rows, columns, found),
        well_typed(before, rows, columns, mixed),
        forall|p: Vector2| claimed(mixed, p) <==> claimed(found, p),
        promoted_from(mixed, promoted),
        demoted_from(promoted, demoted),
    ensures
        well_typed(before, rows, columns, demoted),
        forall|p: Vector2| claimed(demoted, p) <==> claimed(found, p),
        zones_within(scanned, demoted),
{
    lemma_found_claims(before, scanned, rows, columns, found);
    lemma_promote_typed(before, rows, columns, mixed, promoted);
    lemma_demote_typed(before, rows, columns, promoted, demoted);
    assert forall|p: Vector2| claimed(demoted, p) <==> claimed(found, p) by {
        lemma_promote_keeps_claims(mixed, promoted, p);
        lemma_demote_keeps_claims(promoted, demoted, p);
    }
    lemma_claims_within(scanned, rows, columns, demoted);
}

/// What painting and settling make of the scanned grid, cell by cell.
proof fn lemma_classify_cells(
    before: Seq<Vec<PreTileType>>,
    scanned: Seq<Vec<PreTileType>>,
    filled: Seq<Vec<PreTileType>>,
    after: Seq<Vec<PreTileType>>,
    rows: usize,
    columns: usize,
    found: Zones,
    demoted: Zones,
    zones: Zones,
)
    requires
        zones_found(before, scanned, rows, columns, found),
        forall|p: Vector2| claimed(demoted, p) <==> claimed(found, p),
        painted_zones(demoted, zones),
        same_shape(scanned, filled),
        forall|p: Vector2|
            inside(scanned, p) ==> #[trigger] cell_at(filled, p) == paint_of(
                zones,
                p,
                cell_at(scanned, p),
            ),
        same_shape(filled, after),
        forall|p: Vector2|
            inside(filled, p) ==> #[trigger] cell_at(after, p) == settled_category(
                cell_at(filled, p),
            ),
    ensures
        rectangular(after, rows, columns),
        forall|p: Vector2| claimed(zones, p) <==> claimed(found, p),
        forall|p: Vector2|
            on_grid(p, rows, columns) ==> #[trigger] cell_at(after, p) == settled_category(
                paint_of(zones, p, cell_at(before, p)),
            ),
        forall|p: Vector2|
            on_grid(p, rows, columns) ==> resolved_terrain(#[trigger] cell_at(after, p)) is Some,
{
    lemma_found_claims(before, scanned, rows, columns, found);
    assert forall|p: Vector2| claimed(zones, p) <==> claimed(found, p) by {
        lemma_painted_claims(demoted, zones, p);
    }
    assert forall|r: int| 0 <= r < after.len() implies (#[trigger] after[r]).len() == columns by {
        assert(filled[r].len() == scanned[r].len());
        assert(filled[r].len() == after[r].len());
    }
    assert forall|p: Vector2| on_grid(p, rows, columns) implies #[trigger] cell_at(after, p)
        == settled_category(paint_of(zones, p, cell_at(before, p))) by {
        assert(inside(scanned, p));
        assert(filled[p.x as int].len() == scanned[p.x as int].len());
        assert(inside(filled, p));
        assert(cell_at(filled, p) == paint_of(zones, p, cell_at(scanned, p)));
        if !claimed(zones, p) {
            assert(cell_at(scanned, p) == cell_at(before, p));
        } else {
            lemma_paint_claimed(zones, p, cell_at(scanned, p), cell_at(before, p));
        }
    }
}

/// What classification has made meets `classified`.
#[verifier::rlimit(40)]
proof fn lemma_classify_ends(
    before: Seq<Vec<PreTileType>>,
    scanned: Seq<Vec<PreTileType>>,
    after: Seq<Vec<PreTileType>>,
    rows: usize,
    columns: usize,
    found: Zones,
    mixed: Zones,
    order: Seq<int>,
    back: Seq<int>,
    promoted: Zones,
    demoted: Zones,
    zones: Zones,
)
    requires
        zones_found(before, scanned, rows, columns, found),
        permuted(found.mountains@, mixed.mountains@, order, back),
        mixed.coasts == found.coasts,
        mixed.cities == found.cities,
        mixed.hills == found.hills,
        promoted_from(mixed, promoted),
        demoted_from(promoted, demoted),
        well_typed(before, rows, columns, demoted),
        painted_zones(demoted, zones),
        rectangular(after, rows, columns),
        forall|p: Vector2| claimed(zones, p) <==> claimed(found, p),
        forall|p: Vector2|
            on_grid(p, rows, columns) ==> #[trigger] cell_at(after, p) == settled_category(
                paint_of(zones, p, cell_at(before, p)),
            ),
        forall|p: Vector2|
            on_grid(p, rows, columns) ==> resolved_terrain(#[trigger] cell_at(after, p)) is Some,
    ensures
        classified(before, after, rows, columns, zones),
        exists|lot: Allotment| #[trigger]
            is_allotment(before, rows, columns, zones, lot) && lot.promoted == zones.cities@,
{
    reveal(classified);
    lemma_found_claims(before, scanned, rows, columns, found);
    lemma_found_regions(before, scanned, rows, columns, found);
    lemma_painted_typed(before, rows, columns, demoted, zones);
    lemma_same_cells_regions(before, rows, columns, found.coasts@, zones.coasts@);
    lemma_allotted(mixed, promoted, demoted, zones);
    lemma_permuted_same(zones.cities@);
    let lot = Allotment {
        found: found.mountains@,
        mixed: mixed.mountains@,
        order,
        back,
        promoted: zones.cities@,
        turn: Seq::new(zones.cities@.len(), |i: int| i),
        turn_back: Seq::new(zones.cities@.len(), |i: int| i),
    };
    assert(is_allotment(before, rows, columns, zones, lot));
}

/// Chaining the settlements and laying the roads keeps the outcome of classification.
#[verifier::rlimit(40)]
proof fn lemma_chained_classified(
    before: Seq<Vec<PreTileType>>,
    filled: Seq<Vec<PreTileType>>,
    after: Seq<Vec<PreTileType>>,
    rows: usize,
    columns: usize,
    sorted: Zones,
    zones: Zones,
    turn: Seq<int>,
    turn_back: Seq<int>,
    paths: Seq<Seq<Vector2>>,
)
    requires
        classified(before, filled, rows, columns, sorted),
        exists|lot: Allotment| #[trigger]
            is_allotment(before, rows, columns, sorted, lot) && lot.promoted == sorted.cities@,
        zones.coasts == sorted.coasts,
        zones.hills == sorted.hills,
        zones.mountains == sorted.mountains,
        permuted(sorted.cities@, zones.cities@, turn, turn_back),
        roads_laid(filled, after, paths),
    ensures
        classified(before, after, rows, columns, zones),
        forall|p: Vector2, beneath: PreTileType| #[trigger]
            paint_of(zones, p, beneath) == paint_of(sorted, p, beneath),
{
    reveal(classified);
    lemma_roads_only_pave(filled, after, paths);
    let lot = choose|lot: Allotment| #[trigger]
        is_allotment(before, rows, columns, sorted, lot) && lot.promoted == sorted.cities@;
    let chained = Allotment { turn, turn_back, ..lot };
    assert(is_allotment(before, rows, columns, zones, chained));
    assert forall|p: Vector2| covered(zones.cities@, p) <==> covered(sorted.cities@, p) by {
        lemma_permuted_cover(sorted.cities@, zones.cities@, turn, turn_back, p);
    }
    assert forall|r: int| 0 <= r < after.len() implies (#[trigger] after[r]).len() == columns by {
        assert(filled[r].len() == after[r].len());
    }
    assert forall|p: Vector2| claimed(zones, p) <==> claimed(sorted, p) by {}
    assert forall|p: Vector2| on_grid(p, rows, columns) implies #[trigger] cell_at(after, p)
        == settled_category(paint_of(zones, p, cell_at(before, p))) || cell_at(after, p)
        == PreTileType::Road by {
        assert(inside(filled, p));
        assert(cell_at(filled, p) == settled_category(paint_of(sorted, p, cell_at(before, p)))
            || cell_at(filled, p) == PreTileType::Road);
        assert(paint_of(zones, p, cell_at(before, p)) == paint_of(sorted, p, cell_at(before, p)));
        assert(cell_at(after, p) == cell_at(filled, p) || cell_at(after, p) == cell_at(
            filled,
            p,
        ).paved());
    }
    assert forall|p: Vector2| on_grid(p, rows, columns) implies resolved_terrain(
        #[trigger] cell_at(after, p),
    ) is Some by {
        assert(inside(filled, p));
        assert(cell_at(after, p) == cell_at(filled, p) || cell_at(after, p) == cell_at(
            filled,
            p,
        ).paved());
    }
}

/// What a claimed cell is painted does not depend on what it was.
pub proof fn lemma_paint_claimed(zones: Zones, p: Vector2, one: PreTileType, other: PreTileType)
    requires
        claimed(zones, p),
    ensures
        paint_of(zones, p, one) == paint_of(zones, p, other),
{
    if covered(zones.coasts@, p) {
        lemma_coast_paint_claimed(zones.coasts@, p, one, other);
    }
    if covered(zones.coasts@, p) || covered(upland_zones(zones.mountains@), p) || pooled(
        zones.mountains@,
        p,
    ) {
        lemma_mountain_paint_claimed(
            zones.mountains@,
            p,
            coast_paint(zones.coasts@, p, one),
            coast_paint(zones.coasts@, p, other),
        );
    }
}

/// What a cell of a coast is painted does not depend on what lies beneath.
proof fn lemma_coast_paint_claimed(coasts: Seq<Zone>, p: Vector2, one: PreTileType, other: PreTileType)
    requires
        covered(coasts, p),
    ensures
        coast_paint(coasts, p, one) == coast_paint(coasts, p, other),
    decreases coasts.len(),
{
    if coasts.len() > 0 && !coasts.last().inner@.contains(p) {
        let k = choose|k: int| 0 <= k < coasts.len() && (#[trigger] coasts[k]).inner@.contains(p);
        assert(coasts.drop_last()[k].inner@.contains(p));
        lemma_coast_paint_claimed(coasts.drop_last(), p, one, other);
    }
}

/// What a cell of a mountain is painted does not depend on what lies beneath.
proof fn lemma_mountain_paint_claimed(
    mountains: Seq<Mountain>,
    p: Vector2,
    one: PreTileType,
    other: PreTileType,
)
    requires
        covered(upland_zones(mountains), p) || pooled(mountains, p) || one == other,
    ensures
        mountain_paint(mountains, p, one) == mountain_paint(mountains, p, other),
    decreases mountains.len(),
{
    if one != other {
        lemma_mountain_paint(mountains, p, one);
        lemma_mountain_paint(mountains, p, other);
        if mountains.len() > 0 && !mountains.last().zone.inner@.contains(p) && !covered(
            mountains.last().lava_pools@,
            p,
        ) {
            let rest = mountains.drop_last();
            if covered(upland_zones(mountains), p) {
                let k = choose|k: int|
                    0 <= k < upland_zones(mountains).len() && (#[trigger] upland_zones(
                        mountains,
                    )[k]).inner@.contains(p);
                assert(upland_zones(mountains)[mountains.len() - 1] == mountains.last().zone);
                assert(upland_zones(rest)[k].inner@.contains(p));
            } else {
                let k = choose|k: int|
                    0 <= k < mountains.len() && covered((#[trigger] mountains[k]).lava_pools@, p);
                assert(rest[k] == mountains[k]);
            }
            lemma_mountain_paint_claimed(rest, p, one, other);
        }
    }
}

/// What the regions found by a scan claim.
proof fn lemma_found_claims(
    before: Seq<Vec<PreTileType>>,
    after: Seq<Vec<PreTileType>>,
    rows: usize,
    columns: usize,
    zones: Zones,
)
    requires
        zones_found(before, after, rows, columns, zones),
    ensures
        forall|p: Vector2|
            #[trigger] claimed(zones, p) ==> on_grid(p, rows, columns) && (in_category(
                before,
                COAST,
                p,
            ) || in_category(before, UPLAND, p) || in_category(before, HAZARD, p)),
        forall|p: Vector2|
            on_grid(p, rows, columns) && (in_category(before, COAST, p) || in_category(
                before,
                UPLAND,
                p,
            )) ==> #[trigger] claimed(zones, p),
        forall|p: Vector2|
            on_grid(p, rows, columns) && !claimed(zones, p) ==> #[trigger] cell_at(after, p)
                == cell_at(before, p),
{
    lemma_cover_is_whole(before, rows, columns, COAST, zones.coasts@);
    lemma_taken_is_whole(before, rows, columns, zones.mountains@);
    assert forall|p: Vector2| #[trigger] claimed(zones, p) implies on_grid(p, rows, columns) && (
    in_category(before, COAST, p) || in_category(before, UPLAND, p) || in_category(
        before,
        HAZARD,
        p,
    )) by {
        lemma_pooled(zones.mountains@, p);
        if covered(zones.cities@, p) {
            let k = choose|k: int|
                0 <= k < zones.cities@.len() && (#[trigger] zones.cities@[k]).inner@.contains(p);
        }
        if covered(zones.hills@, p) {
            let k = choose|k: int|
                0 <= k < zones.hills@.len() && (#[trigger] zones.hills@[k]).inner@.contains(p);
        }
    }
    assert forall|p: Vector2|
        on_grid(p, rows, columns) && !claimed(zones, p) implies #[trigger] cell_at(after, p)
        == cell_at(before, p) by {
        lemma_pooled(zones.mountains@, p);
    }
}

/// The content is what the settlement table gives for some roll.
pub open spec fn drawn_in_city(
    table: Seq<(std::ops::Range<usize>, Content)>,
    content: Content,
) -> bool {
    exists|roll: usize|
        roll < PERCENTILES && content == #[trigger] lookup(table, roll, Content::Empty)
}

/// The contents after the cells of the regions of `cities` that are grass have
/// got a content from the settlement table; the other cells hold what they held.
pub open spec fn furnished(
    world: Seq<Vec<TileType>>,
    before: Seq<Vec<Content>>,
    after: Seq<Vec<Content>>,
    cities: Seq<Zone>,
    table: Seq<(std::ops::Range<usize>, Content)>,
) -> bool {
    &&& same_shape(before, after)
    &&& forall|p: Vector2|
        inside(before, p) ==> if covered(cities, p) && inside(world, p) && cell_at(world, p)
            == TileType::Grass {
            drawn_in_city(table, #[trigger] cell_at(after, p))
        } else {
            cell_at(after, p) == cell_at(before, p)
        }
}

/// Gives the grass cells of one settlement their content.
fn furnish(
    city: &Zone,
    world: &Vec<Vec<TileType>>,
    content_vec: &mut Vec<Vec<Content>>,
    city_content_dist: &CityContentDist,
    rng: &mut StdRng,
)
    requires
        within(world@, city.inner@),
        within(old(content_vec)@, city.inner@),
    ensures
        same_shape(old(content_vec)@, final(content_vec)@),
        forall|p: Vector2|
            inside(old(content_vec)@, p) ==> if city.inner@.contains(p) && cell_at(world@, p)
                == TileType::Grass {
                drawn_in_city(city_content_dist@, #[trigger] cell_at(final(content_vec)@, p))
            } else {
                cell_at(final(content_vec)@, p) == cell_at(old(content_vec)@, p)
            },
{
    let ghost before = content_vec@;
    let mut i: usize = 0;
    while i < city.inner.len()
        invariant
            i <= city.inner.len(),
            within(world@, city.inner@),
            within(before, city.inner@),
            same_shape(before, content_vec@),
            forall|p: Vector2|
                inside(before, p) ==> if city.inner@.take(i as int).contains(p) && cell_at(
                    world@,
                    p,
                ) == TileType::Grass {
                    drawn_in_city(city_content_dist@, #[trigger] cell_at(content_vec@, p))
                } else {
                    cell_at(content_vec@, p) == cell_at(before, p)
                },
        decreases city.inner.len() - i,
    {
        let point = city.inner[i];
        let ghost now = content_vec@;
        let ghost done = city.inner@.take(i as int);
        proof {
            assert(city.inner@[i as int] == point);
            assert(now[point.x as int].len() == before[point.x as int].len());
        }
        if world[point.x][point.y] == TileType::Grass {
            let roll = roll_below(rng, PERCENTILES);
            content_vec[point.x][point.y] = city_content_dist.get_content(roll);
        }
        proof {
            let next = city.inner@.take(i + 1);
            assert(next =~= done.push(point));
            assert forall|r: int| 0 <= r < before.len() implies (#[trigger] before[r]).len()
                == content_vec@[r].len() by {
                assert(now[r].len() == before[r].len());
                if r != point.x {
                    assert(content_vec@[r] == now[r]);
                }
            }
            assert forall|p: Vector2| inside(before, p) implies if next.contains(p) && cell_at(
                world@,
                p,
            ) == TileType::Grass {
                drawn_in_city(city_content_dist@, #[trigger] cell_at(content_vec@, p))
            } else {
                cell_at(content_vec@, p) == cell_at(before, p)
            } by {
                assert(now[p.x as int].len() == before[p.x as int].len());
                if p == point {
                    assert(next.last() == point);
                } else {
                    if p.x != point.x {
                        assert(content_vec@[p.x as int] == now[p.x as int]);
                    }
                    assert(cell_at(content_vec@, p) == cell_at(now, p));
                    if next.contains(p) {
                        let k = choose|k: int| 0 <= k < next.len() && next[k] == p;
                        assert(done[k] == p);
                    }
                    if done.contains(p) {
                        let k = choose|k: int| 0 <= k < done.len() && done[k] == p;
                        assert(next[k] == p);
                    }
                }
            }
        }
        i += 1;
    }
    proof {
        assert(city.inner@.take(city.inner@.len() as int) =~= city.inner@);
    }
}

impl Zones {
    /// Gives every cell of a settlement that is grass the content that the
    /// settlement table gives for a roll of the generator.
    pub fn fill_cities_with_content(
        &self,
        world: &Vec<Vec<TileType>>,
        content_vec: &mut Vec<Vec<Content>>,
        city_content_dist: &CityContentDist,
        rng: &mut StdRng,
    )
        requires
            all_within(world@, self.cities@),
            all_within(old(content_vec)@, self.cities@),
        ensures
            furnished(
                world@,
                old(content_vec)@,
                final(content_vec)@,
                self.cities@,
                city_content_dist@,
            ),
    {
        let ghost before = content_vec@;
        let mut i: usize = 0;
        proof {
            assert(!covered(self.cities@.take(0), Vector2 { x: 0, y: 0 }));
        }
        while i < self.cities.len()
            invariant
                i <= self.cities.len(),
                all_within(world@, self.cities@),
                all_within(before, self.cities@),
                same_shape(before, content_vec@),
                forall|p: Vector2|
                    inside(before, p) ==> if covered(self.cities@.take(i as int), p) && inside(
                        world@,
                        p,
                    ) && cell_at(world@, p) == TileType::Grass {
                        drawn_in_city(city_content_dist@, #[trigger] cell_at(content_vec@, p))
                    } else {
                        cell_at(content_vec@, p) == cell_at(before, p)
                    },
            decreases self.cities.len() - i,
        {
            let ghost now = content_vec@;
            let ghost done = self.cities@.take(i as int);
            proof {
                assert(within(before, self.cities@[i as int].inner@));
                lemma_within_same_shape(before, now, self.cities@[i as int].inner@);
            }
            furnish(&self.cities[i], world, content_vec, city_content_dist, rng);
            proof {
                let next = self.cities@.take(i + 1);
                let city = self.cities@[i as int];
                assert forall|r: int| 0 <= r < before.len() implies (#[trigger] before[r]).len()
                    == content_vec@[r].len() by {
                    assert(now[r].len() == before[r].len());
                }
                assert forall|p: Vector2| inside(before, p) implies if covered(next, p) && inside(
                    world@,
                    p,
                ) && cell_at(world@, p) == TileType::Grass {
                    drawn_in_city(city_content_dist@, #[trigger] cell_at(content_vec@, p))
                } else {
                    cell_at(content_vec@, p) == cell_at(before, p)
                } by {
                    assert(now[p.x as int].len() == before[p.x as int].len());
                    assert(inside(now, p));
                    if covered(done, p) {
                        let k = choose|k: int|
                            0 <= k < done.len() && (#[trigger] done[k]).inner@.contains(p);
                        assert(next[k].inner@.contains(p));
                    }
                    if city.inner@.contains(p) {
                        assert(next[i as int].inner@.contains(p));
                        let k = choose|k: int| 0 <= k < city.inner@.len() && city.inner@[k] == p;
                        assert(inside(world@, p));
                    }
                    if covered(next, p) {
                        let k = choose|k: int|
                            0 <= k < next.len() && (#[trigger] next[k]).inner@.contains(p);
                        if k < i {
                            assert(done[k].inner@.contains(p));
                        }
                    }
                }
            }
            i += 1;
        }
        proof {
            assert(self.cities@.take(self.cities@.len() as int) =~= self.cities@);
        }
    }
}

} // verus!
