//! A generation run: from elevation percentiles to the finished grid of tiles.

use crate::distribution::{
    lemma_lookup_is_exact, lemma_table_fault, lookup, range_fault, table_fault, ContentDist,
    ContentMap, HoldRules, NoiseDist, PERCENTILES, REQUIRED_KEYS,
};
use crate::generator_error::GeneratorError;
use crate::grid::{cell_at, dimensions, rectangular};
use crate::random::{roll_below, seeded};
use crate::random::rearranged;
use crate::roads::{connect, is_network};
use crate::tile::{
    resolved_terrain, slot_terrain, terrain_slot, Cell, Content, PreTile, PreTileType, Tile,
    TileType,
};
use crate::vector2::{on_grid, Vector2};
use crate::zone::{
    are_regions, covered, extract, in_category, in_reading_order, voided, whole_regions, Zone,
    COAST, HAZARD, UPLAND,
};
use crate::zones::{
    classified, inside, is_road_plan, lemma_classified_cells, lemma_networked_only_paves,
    lemma_classified_grid, lemma_networked_shape, lemma_regions_carry, networked, paint_of,
    same_shape, settled_category, Zones,
};
use rand::rngs::StdRng;
use vstd::prelude::*;

verus! {

/// The content is one that the table lists for the terrain.
pub open spec fn offered(table: ContentMap, terrain: TileType, content: Content) -> bool {
    table.contains_key(terrain) && exists|i: int|
        0 <= i < table[terrain].len() && (#[trigger] table[terrain][i]).1 == content
}

/// The content is what the table gives the terrain for some roll.
pub open spec fn drawn(table: ContentMap, terrain: TileType, content: Content) -> bool {
    exists|roll: usize|
        roll < PERCENTILES && content == #[trigger] rolled(table, terrain, roll)
}

/// What the table gives the terrain for a roll.
pub open spec fn rolled(table: ContentMap, terrain: TileType, roll: usize) -> Content {
    if table.contains_key(terrain) {
        lookup(table[terrain], roll, Content::Empty)
    } else {
        Content::Empty
    }
}

/// From a table without fault only contents that the table lists are drawn.
pub proof fn lemma_drawn_is_offered(
    table: ContentMap,
    rules: HoldRules,
    terrain: TileType,
    content: Content,
)
    requires
        table_fault(table, rules) is None,
        terrain != TileType::Teleport(true),
        drawn(table, terrain, content),
    ensures
        offered(table, terrain, content),
{
    lemma_table_fault(table, rules);
    let roll = choose|roll: usize|
        roll < PERCENTILES && content == #[trigger] rolled(table, terrain, roll);
    let k = terrain_slot(terrain);
    assert(slot_terrain(k) == terrain);
    assert(0 <= k < REQUIRED_KEYS);
    lemma_lookup_is_exact(table[terrain], roll, Content::Empty);
}

/// The category of each elevation percentile.
pub fn categorize(percentiles: &Vec<Vec<usize>>, dist: &NoiseDist) -> (world: Vec<Vec<PreTileType>>)
    ensures
        same_shape(percentiles@, world@),
        forall|p: Vector2|
            inside(percentiles@, p) ==> #[trigger] cell_at(world@, p) == lookup(
                dist@,
                cell_at(percentiles@, p),
                PreTileType::Void,
            ),
{
    let mut world: Vec<Vec<PreTileType>> = Vec::new();
    let mut x: usize = 0;
    while x < percentiles.len()
        invariant
            x <= percentiles.len(),
            world@.len() == x,
            forall|i: int| 0 <= i < x ==> (#[trigger] world@[i]).len() == percentiles@[i].len(),
            forall|p: Vector2|
                p.x < x && inside(percentiles@, p) ==> #[trigger] cell_at(world@, p) == lookup(
                    dist@,
                    cell_at(percentiles@, p),
                    PreTileType::Void,
                ),
        decreases percentiles.len() - x,
    {
        let mut row: Vec<PreTileType> = Vec::new();
        let mut y: usize = 0;
        while y < percentiles[x].len()
            invariant
                x < percentiles.len(),
                y <= percentiles[x as int].len(),
                row@.len() == y,
                forall|j: int|
                    0 <= j < y ==> #[trigger] row@[j] == lookup(
                        dist@,
                        percentiles@[x as int]@[j],
                        PreTileType::Void,
                    ),
            decreases percentiles[x as int].len() - y,
        {
            row.push(dist.get(percentiles[x][y]));
            y += 1;
        }
        let ghost before = world@;
        world.push(row);
        proof {
            assert forall|p: Vector2|
                p.x < x + 1 && inside(percentiles@, p) implies #[trigger] cell_at(world@, p)
                == lookup(dist@, cell_at(percentiles@, p), PreTileType::Void) by {
                if p.x < x {
                    assert(world@[p.x as int] == before[p.x as int]);
                    assert(cell_at(world@, p) == cell_at(before, p));
                } else {
                    assert(cell_at(world@, p) == row@[p.y as int]);
                }
            }
            assert forall|i: int| 0 <= i < x + 1 implies (#[trigger] world@[i]).len()
                == percentiles@[i].len() by {
                if i < x {
                    assert(world@[i] == before[i]);
                }
            }
        }
        x += 1;
    }
    world
}

/// The content of a cell of the terrain: what the table gives for a roll of
/// the generator.
pub fn put_content(dist: &ContentDist, terrain: TileType, rng: &mut StdRng) -> (content: Content)
    ensures
        drawn(dist@, terrain, content),
{
    let roll = roll_below(rng, PERCENTILES);
    let content = dist.get_content(terrain, roll);
    assert(content == rolled(dist@, terrain, roll));
    content
}

/// Every cell of the grid has a terrain.
pub open spec fn all_resolved(world: Seq<Vec<PreTileType>>) -> bool {
    forall|p: Vector2| inside(world, p) ==> resolved_terrain(#[trigger] cell_at(world, p)) is Some
}

/// Puts terrain, content and elevation together: each tile has the terrain of
/// its cell, the content that the table gives the terrain for a roll of the
/// generator, and the elevation given for the cell.
pub fn assemble(
    world: &Vec<Vec<PreTileType>>,
    elevation: &Vec<Vec<usize>>,
    dist: &ContentDist,
    rng: &mut StdRng,
) -> (tiles: Vec<Vec<Tile>>)
    requires
        same_shape(world@, elevation@),
        all_resolved(world@),
    ensures
        same_shape(world@, tiles@),
        forall|p: Vector2|
            inside(world@, p) ==> {
                let tile = #[trigger] cell_at(tiles@, p);
                &&& Some(tile.tile_type) == resolved_terrain(cell_at(world@, p))
                &&& tile.elevation == cell_at(elevation@, p)
                &&& drawn(dist@, tile.tile_type, tile.content)
            },
{
    let mut tiles: Vec<Vec<Tile>> = Vec::new();
    let mut x: usize = 0;
    while x < world.len()
        invariant
            x <= world.len(),
            same_shape(world@, elevation@),
            all_resolved(world@),
            tiles@.len() == x,
            forall|i: int| 0 <= i < x ==> (#[trigger] tiles@[i]).len() == world@[i].len(),
            forall|p: Vector2|
                p.x < x && inside(world@, p) ==> {
                    let tile = #[trigger] cell_at(tiles@, p);
                    &&& Some(tile.tile_type) == resolved_terrain(cell_at(world@, p))
                    &&& tile.elevation == cell_at(elevation@, p)
                    &&& drawn(dist@, tile.tile_type, tile.content)
                },
        decreases world.len() - x,
    {
        let mut row: Vec<Tile> = Vec::new();
        let mut y: usize = 0;
        assert(world@[x as int].len() == elevation@[x as int].len());
        while y < world[x].len()
            invariant
                x < world.len(),
                y <= world[x as int].len(),
                world@[x as int].len() == elevation@[x as int].len(),
                x < elevation.len(),
                all_resolved(world@),
                row@.len() == y,
                forall|j: int|
                    0 <= j < y ==> {
                        let tile = #[trigger] row@[j];
                        &&& Some(tile.tile_type) == resolved_terrain(world@[x as int]@[j])
                        &&& tile.elevation == elevation@[x as int]@[j]
                        &&& drawn(dist@, tile.tile_type, tile.content)
                    },
            decreases world[x as int].len() - y,
        {
            proof {
                let here = Vector2 { x, y };
                assert(inside(world@, here));
                assert(resolved_terrain(cell_at(world@, here)) is Some);
            }
            let tile_type = match world[x][y].to_tiletype() {
                Some(t) => t,
                None => TileType::Grass,
            };
            let content = put_content(dist, tile_type, rng);
            row.push(Tile { tile_type, content, elevation: elevation[x][y] });
            y += 1;
        }
        let ghost before = tiles@;
        tiles.push(row);
        proof {
            assert forall|p: Vector2| p.x < x + 1 && inside(world@, p) implies {
                let tile = #[trigger] cell_at(tiles@, p);
                &&& Some(tile.tile_type) == resolved_terrain(cell_at(world@, p))
                &&& tile.elevation == cell_at(elevation@, p)
                &&& drawn(dist@, tile.tile_type, tile.content)
            } by {
                if p.x < x {
                    assert(tiles@[p.x as int] == before[p.x as int]);
                    assert(cell_at(tiles@, p) == cell_at(before, p));
                } else {
                    assert(cell_at(tiles@, p) == row@[p.y as int]);
                }
            }
            assert forall|i: int| 0 <= i < x + 1 implies (#[trigger] tiles@[i]).len()
                == world@[i].len() by {
                if i < x {
                    assert(tiles@[i] == before[i]);
                }
            }
        }
        x += 1;
    }
    tiles
}

/// The anchors of the road network: the centroids of the settlements, in
/// their order, but for those that lie off the grid or on a terrain of `banned`.
pub open spec fn anchors_of(cities: Seq<Zone>, tiles: Seq<Vec<Tile>>, banned: Seq<TileType>) -> Seq<
    Vector2,
>
    decreases cities.len(),
{
    if cities.len() == 0 {
        Seq::empty()
    } else {
        let rest = anchors_of(cities.drop_last(), tiles, banned);
        let c = cities.last().centroid;
        if inside(tiles, c) && !banned.contains(cell_at(tiles, c).tile_type) {
            rest.push(c)
        } else {
            rest
        }
    }
}

/// Whether the list holds the terrain.
pub fn is_listed(list: &Vec<TileType>, terrain: TileType) -> (b: bool)
    ensures
        b == list@.contains(terrain),
{
    let mut i: usize = 0;
    while i < list.len()
        invariant
            i <= list.len(),
            forall|k: int| 0 <= k < i ==> list@[k] != terrain,
        decreases list.len() - i,
    {
        if list[i] == terrain {
            return true;
        }
        i += 1;
    }
    false
}

/// The anchors of the road network.
pub fn settlement_anchors(
    cities: &Vec<Zone>,
    tiles: &Vec<Vec<Tile>>,
    not_spawnable: &Vec<TileType>,
) -> (anchors: Vec<Vector2>)
    ensures
        anchors@ == anchors_of(cities@, tiles@, not_spawnable@),
{
    let mut anchors: Vec<Vector2> = Vec::new();
    let mut i: usize = 0;
    proof {
        assert(cities@.take(0) =~= Seq::<Zone>::empty());
    }
    while i < cities.len()
        invariant
            i <= cities.len(),
            anchors@ == anchors_of(cities@.take(i as int), tiles@, not_spawnable@),
        decreases cities.len() - i,
    {
        let c = cities[i].centroid;
        proof {
            let upto = cities@.take(i + 1);
            assert(upto.drop_last() =~= cities@.take(i as int));
            assert(upto.last() == cities@[i as int]);
        }
        if c.x < tiles.len() && c.y < tiles[c.x].len() && !is_listed(
            not_spawnable,
            tiles[c.x][c.y].tile_type,
        ) {
            anchors.push(c);
        }
        i += 1;
    }
    proof {
        assert(cities@.take(cities@.len() as int) =~= cities@);
    }
    anchors
}

/// The grid has as many rows as columns, and has a cell.
pub open spec fn is_square<T>(g: Seq<Vec<T>>) -> bool {
    g.len() > 0 && forall|i: int| 0 <= i < g.len() ==> (#[trigger] g[i]).len() == g.len()
}

/// Why a generation run is refused, if it is: for the first fault of the
/// category table, else for the first fault of the content table, else for
/// the size of the grid, which must be square, with the elevations given for
/// the same cells.
pub open spec fn build_refusal(
    percentiles: Seq<Vec<usize>>,
    elevation: Seq<Vec<usize>>,
    noise: NoiseDist,
    contents: ContentMap,
    rules: HoldRules,
) -> Option<GeneratorError> {
    if range_fault(noise@) is Some {
        range_fault(noise@)
    } else if table_fault(contents, rules) is Some {
        table_fault(contents, rules)
    } else if !(is_square(percentiles) && same_shape(percentiles, elevation)) {
        Some(GeneratorError::InvalidWorldSize)
    } else {
        None
    }
}

/// A cell of the category `c` may end with the terrain `t`: a street may
/// cross any cell; a coast becomes sand or grass; an upland stays mountain or
/// becomes the grass of a settlement or the hill of a foothill; a hazard is
/// lava or is paved over by a settlement or a foothill; any other provisional
/// category becomes grass; a terrain stays.
pub open spec fn may_become(c: PreTileType, t: TileType) -> bool {
    t == TileType::Street || match c {
        PreTileType::Zone(id) => if id == COAST {
            t == TileType::Sand || t == TileType::Grass
        } else if id == UPLAND {
            t == TileType::Mountain || t == TileType::Grass || t == TileType::Hill
        } else if id == HAZARD {
            t == TileType::Lava || t == TileType::Grass || t == TileType::Hill
        } else {
            t == TileType::Grass
        },
        PreTileType::Void => t == TileType::Grass,
        other => resolved_terrain(other) == Some(t),
    }
}

/// The stages by which the tiles came about: `given` are the categories of
/// the percentiles; `sorted` is what classification made of them, with the
/// regions `zones`; `made` are the tiles before the roads, each with the
/// terrain of its cell; and the tiles are `made` with the roads laid between
/// the anchors that the settlements give.
pub open spec fn is_laid_out(
    percentiles: Seq<Vec<usize>>,
    noise: NoiseDist,
    banned: Seq<TileType>,
    tiles: Seq<Vec<Tile>>,
    given: Seq<Vec<PreTileType>>,
    sorted: Seq<Vec<PreTileType>>,
    zones: Zones,
    made: Seq<Vec<Tile>>,
) -> bool {
    let size = percentiles.len() as usize;
    &&& same_shape(percentiles, given)
    &&& forall|p: Vector2|
        inside(percentiles, p) ==> #[trigger] cell_at(given, p) == lookup(
            noise@,
            cell_at(percentiles, p),
            PreTileType::Void,
        )
    &&& classified(given, sorted, size, size, zones)
    &&& forall|p: Vector2|
        on_grid(p, size, size) ==> #[trigger] cell_at(sorted, p) == settled_category(
            paint_of(zones, p, cell_at(given, p)),
        )
    &&& same_shape(percentiles, made)
    &&& forall|p: Vector2|
        inside(percentiles, p) ==> Some((#[trigger] cell_at(made, p)).tile_type)
            == resolved_terrain(cell_at(sorted, p))
    &&& networked(made, tiles, anchors_of(zones.cities@, made, banned))
}

/// The grid of tiles is a world built from the percentiles: it has their
/// shape; each tile has the elevation given for its cell and a terrain that
/// the category of its percentile may become; a street that a road has laid
/// holds nothing, and every other tile holds a content that the table lists
/// for its terrain; and the tiles came about by the stages of `is_laid_out`.
pub open spec fn is_built(
    percentiles: Seq<Vec<usize>>,
    elevation: Seq<Vec<usize>>,
    noise: NoiseDist,
    contents: ContentMap,
    banned: Seq<TileType>,
    tiles: Seq<Vec<Tile>>,
) -> bool {
    &&& exists|
        given: Seq<Vec<PreTileType>>,
        sorted: Seq<Vec<PreTileType>>,
        zones: Zones,
        made: Seq<Vec<Tile>>,
    | #[trigger] is_laid_out(percentiles, noise, banned, tiles, given, sorted, zones, made)
    &&& same_shape(percentiles, tiles)
    &&& forall|p: Vector2|
        inside(percentiles, p) ==> {
            let tile = #[trigger] cell_at(tiles, p);
            &&& tile.elevation == cell_at(elevation, p)
            &&& may_become(
                lookup(noise@, cell_at(percentiles, p), PreTileType::Void),
                tile.tile_type,
            )
            &&& tile.tile_type != TileType::Teleport(true)
            &&& ((tile.tile_type == TileType::Street && tile.content == Content::Empty) || offered(
                contents,
                tile.tile_type,
                tile.content,
            ))
        }
}

/// Whether two grids have rows of the same lengths.
pub fn shapes_match<A, B>(a: &Vec<Vec<A>>, b: &Vec<Vec<B>>) -> (same: bool)
    ensures
        same == same_shape(a@, b@),
{
    if a.len() != b.len() {
        return false;
    }
    let mut i: usize = 0;
    while i < a.len()
        invariant
            i <= a.len(),
            a.len() == b.len(),
            forall|k: int| 0 <= k < i ==> (#[trigger] a@[k]).len() == b@[k].len(),
        decreases a.len() - i,
    {
        if a[i].len() != b[i].len() {
            return false;
        }
        i += 1;
    }
    true
}

/// What classification makes of a cell is a terrain that the category of the
/// cell may become.
proof fn lemma_terrain_follows_category(
    before: Seq<Vec<PreTileType>>,
    after: Seq<Vec<PreTileType>>,
    rows: usize,
    columns: usize,
    zones: Zones,
    p: Vector2,
)
    requires
        classified(before, after, rows, columns, zones),
        on_grid(p, rows, columns),
        cell_at(after, p) != PreTileType::Road || cell_at(before, p) == PreTileType::Road,
    ensures
        resolved_terrain(cell_at(after, p)) is Some,
        may_become(cell_at(before, p), resolved_terrain(cell_at(after, p))->0),
        resolved_terrain(cell_at(after, p))->0 != TileType::Teleport(true),
{
    lemma_classified_cells(before, after, rows, columns, zones, p);
}

/// Builds the world for a grid of elevation percentiles.
///
/// The tables are checked first; a run with a table at fault is refused with
/// the fault, before any work on the grid. Then every percentile gets its
/// category; the regions are found and classified, which leaves no cell
/// without a terrain; every cell gets the content that the content table
/// gives its terrain for a roll; roads are laid between the settlements whose
/// centroid does not lie on a terrain of `not_spawnable`, and what a road
/// crosses becomes a street that holds nothing. All that is drawn comes from a
/// generator started from `seed`.
#[verifier::rlimit(40)]
pub fn build_world(
    percentiles: &Vec<Vec<usize>>,
    elevation: &Vec<Vec<usize>>,
    noise_dist: &NoiseDist,
    content_dist: &ContentDist,
    rules: &HoldRules,
    not_spawnable: &Vec<TileType>,
    seed: u64,
) -> (out: Result<Vec<Vec<Tile>>, GeneratorError>)
    ensures
        match out {
            Ok(tiles) => build_refusal(
                percentiles@,
                elevation@,
                *noise_dist,
                content_dist@,
                *rules,
            ) is None && is_built(
                percentiles@,
                elevation@,
                *noise_dist,
                content_dist@,
                not_spawnable@,
                tiles@,
            ),
            Err(e) => build_refusal(percentiles@, elevation@, *noise_dist, content_dist@, *rules)
                == Some(e),
        },
{
    match noise_dist.is_valid() {
        Ok(()) => {},
        Err(e) => {
            return Err(e);
        },
    }
    match content_dist.is_valid(rules) {
        Ok(()) => {},
        Err(e) => {
            return Err(e);
        },
    }
    let size = match dimensions(percentiles) {
        Some((rows, columns)) => {
            if rows != columns {
                proof {
                    assert(percentiles@[0].len() != percentiles@.len());
                }
                return Err(GeneratorError::InvalidWorldSize);
            }
            rows
        },
        None => {
            return Err(GeneratorError::InvalidWorldSize);
        },
    };
    if !shapes_match(percentiles, elevation) {
        return Err(GeneratorError::InvalidWorldSize);
    }
    let mut rng = seeded(seed);
    let mut world = categorize(percentiles, noise_dist);
    let ghost given = world@;
    proof {
        assert(rectangular(given, size, size)) by {
            assert forall|i: int| 0 <= i < given.len() implies (#[trigger] given[i]).len()
                == size by {
                assert(percentiles@[i].len() == size);
            }
        }
    }
    let zones = Zones::classify(&mut world, &mut rng);
    let ghost sorted = world@;
    let ghost settled = sorted;
    proof {
        lemma_classified_grid(given, sorted, size, size, zones);
        assert(same_shape(settled, elevation@)) by {
            assert forall|i: int| 0 <= i < settled.len() implies (#[trigger] settled[i]).len()
                == elevation@[i].len() by {
                assert(sorted[i].len() == settled[i].len());
                assert(given[i].len() == percentiles@[i].len());
            }
        }
        assert forall|p: Vector2| inside(settled, p) implies resolved_terrain(
            #[trigger] cell_at(settled, p),
        ) is Some by {
            assert(on_grid(p, size, size));
        }
    }
    let mut tiles = assemble(&world, elevation, content_dist, &mut rng);
    let ghost made = tiles@;
    let mut anchors = settlement_anchors(&zones.cities, &tiles, not_spawnable);
    let ghost given_anchors = anchors@;
    connect(&mut tiles, &mut anchors);
    proof {
        let order = choose|order: Seq<int>| #[trigger] rearranged(given_anchors, anchors@, order);
        let paths = choose|paths: Seq<Seq<Vector2>>| #[trigger]
            is_network(made, tiles@, anchors@, paths);
        assert(is_road_plan(made, tiles@, given_anchors, anchors@, order, paths));
        assert(networked(made, tiles@, given_anchors));
        assert forall|p: Vector2| inside(percentiles@, p) implies Some(
            (#[trigger] cell_at(made, p)).tile_type,
        ) == resolved_terrain(cell_at(sorted, p)) by {
            assert(given[p.x as int].len() == percentiles@[p.x as int].len());
            assert(inside(sorted, p));
        }
        assert(same_shape(percentiles@, made)) by {
            assert forall|i: int| 0 <= i < percentiles@.len() implies (
            #[trigger] percentiles@[i]).len() == made[i].len() by {
                assert(made[i].len() == settled[i].len());
                assert(sorted[i].len() == settled[i].len());
                assert(given[i].len() == percentiles@[i].len());
            }
        }
        assert(is_laid_out(
            percentiles@,
            *noise_dist,
            not_spawnable@,
            tiles@,
            given,
            sorted,
            zones,
            made,
        ));
    }
    proof {
        lemma_networked_shape(made, tiles@, given_anchors);
        assert forall|i: int| 0 <= i < percentiles@.len() implies (#[trigger] percentiles@[i]).len()
            == tiles@[i].len() by {
            assert(made[i].len() == settled[i].len());
            assert(sorted[i].len() == settled[i].len());
            assert(given[i].len() == percentiles@[i].len());
            assert(tiles@[i].len() == made[i].len());
        }
        assert forall|p: Vector2| inside(percentiles@, p) implies {
            let tile = #[trigger] cell_at(tiles@, p);
            &&& tile.elevation == cell_at(elevation@, p)
            &&& may_become(
                lookup(noise_dist@, cell_at(percentiles@, p), PreTileType::Void),
                tile.tile_type,
            )
            &&& tile.tile_type != TileType::Teleport(true)
            &&& ((tile.tile_type == TileType::Street && tile.content == Content::Empty) || offered(
                content_dist@,
                tile.tile_type,
                tile.content,
            ))
        } by {
            assert(given[p.x as int].len() == percentiles@[p.x as int].len());
            assert(sorted[p.x as int].len() == settled[p.x as int].len());
            assert(made[p.x as int].len() == settled[p.x as int].len());
            assert(on_grid(p, size, size));
            assert(inside(sorted, p) && inside(settled, p) && inside(made, p));
            let was = cell_at(made, p);
            assert(Some(was.tile_type) == resolved_terrain(cell_at(sorted, p)));
            if cell_at(sorted, p) == PreTileType::Road && cell_at(given, p) != PreTileType::Road {
                lemma_classified_cells(given, sorted, size, size, zones, p);
                assert(was.tile_type == TileType::Street);
            } else {
                lemma_terrain_follows_category(given, sorted, size, size, zones, p);
            }
            lemma_drawn_is_offered(content_dist@, *rules, was.tile_type, was.content);
            lemma_networked_only_paves(made, tiles@, given_anchors, p);
        }
    }
    Ok(tiles)
}

/// The cell has one of the first `count` provisional categories.
pub open spec fn in_first_categories(g: Seq<Vec<PreTile>>, count: usize, p: Vector2) -> bool {
    cell_at(g, p).kind() matches PreTileType::Zone(id) && id < count
}

/// The cells that have one of the first `count` provisional categories.
pub open spec fn first_categories(g: Seq<Vec<PreTile>>, count: usize) -> spec_fn(Vector2) -> bool {
    |p: Vector2| in_first_categories(g, count, p)
}

/// The regions of the first `count` categories have been taken out of the
/// grid, those of each category in a list of their own: `zones[id]` are the
/// whole regions of category `id`, and the cells of all of them have become
/// the placeholder.
pub open spec fn all_segmented(
    before: Seq<Vec<PreTile>>,
    after: Seq<Vec<PreTile>>,
    rows: usize,
    columns: usize,
    count: usize,
    zones: Seq<Vec<Zone>>,
) -> bool {
    &&& zones.len() == count
    &&& rectangular(after, rows, columns)
    &&& forall|id: int|
        0 <= id < count ==> are_regions(before, rows, columns, id as usize, (#[trigger] zones[id])@)
            && in_reading_order(zones[id]@)
    &&& forall|id: int, p: Vector2|
        0 <= id < count && on_grid(p, rows, columns) ==> (in_category(before, id as usize, p)
            <==> #[trigger] covered(zones[id]@, p))
    &&& voided(before, after, rows, columns, first_categories(before, count))
}

/// Takes the regions of the categories below `count` out of a grid of
/// provisional cells, category by category.
pub fn get_zones(preworld: &mut Vec<Vec<PreTile>>, count: usize) -> (zones: Vec<Vec<Zone>>)
    requires
        old(preworld).len() > 0,
        rectangular(old(preworld)@, old(preworld).len(), old(preworld)[0].len()),
    ensures
        final(preworld).len() == old(preworld).len(),
        all_segmented(
            old(preworld)@,
            final(preworld)@,
            old(preworld).len(),
            old(preworld)[0].len(),
            count,
            zones@,
        ),
{
    let ghost before = preworld@;
    let ghost rows = preworld.len();
    let ghost columns = preworld[0].len();
    let mut zones: Vec<Vec<Zone>> = Vec::new();
    let mut id: usize = 0;
    while id < count
        invariant
            id <= count,
            preworld.len() == rows,
            rows > 0,
            rectangular(before, rows, columns),
            all_segmented(before, preworld@, rows, columns, id, zones@),
        decreases count - id,
    {
        let ghost now = preworld@;
        let ghost listed = zones@;
        let ghost consumed = first_categories(before, id);
        assert(columns == preworld[0].len());
        let regions = extract(preworld, id);
        proof {
            assert(whole_regions(before, rows, columns, id, consumed));
            lemma_regions_carry(before, now, rows, columns, id, consumed, regions@);
            assert forall|p: Vector2| on_grid(p, rows, columns) implies (in_category(now, id, p)
                <==> in_category(before, id, p)) by {
                assert(cell_at(now, p) == (if consumed(p) {
                    cell_at(before, p).with_kind(PreTileType::Void)
                } else {
                    cell_at(before, p)
                }));
            }
        }
        zones.push(regions);
        proof {
            assert forall|k: int| 0 <= k < id + 1 implies are_regions(
                before,
                rows,
                columns,
                k as usize,
                (#[trigger] zones@[k])@,
            ) && in_reading_order(zones@[k]@) by {
                if k < id {
                    assert(zones@[k] == listed[k]);
                }
            }
            assert forall|k: int, p: Vector2|
                0 <= k < id + 1 && on_grid(p, rows, columns) implies (in_category(
                before,
                k as usize,
                p,
            ) <==> #[trigger] covered(zones@[k]@, p)) by {
                if k < id {
                    assert(zones@[k] == listed[k]);
                    assert(in_category(before, k as usize, p) <==> covered(listed[k]@, p));
                } else {
                    assert(in_category(now, id, p) <==> covered(regions@, p));
                }
            }
            assert forall|p: Vector2| on_grid(p, rows, columns) implies #[trigger] cell_at(
                preworld@,
                p,
            ) == (if first_categories(before, (id + 1) as usize)(p) {
                cell_at(before, p).with_kind(PreTileType::Void)
            } else {
                cell_at(before, p)
            }) by {
                assert(cell_at(now, p) == (if consumed(p) {
                    cell_at(before, p).with_kind(PreTileType::Void)
                } else {
                    cell_at(before, p)
                }));
                assert(cell_at(preworld@, p) == (if in_category(now, id, p) {
                    cell_at(now, p).with_kind(PreTileType::Void)
                } else {
                    cell_at(now, p)
                }));
            }
        }
        id += 1;
    }
    zones
}

} // verus!
