//! A generation run in which the settlements are furnished from a table of
//! their own: terrains first, then a content for every cell, then the
//! contents of the settlements over them.

use crate::distribution::{
    content_fault, lookup, range_fault, table_fault, CityContentDist, ContentDist, ContentMap,
    HoldRules, NoiseDist,
};
use crate::generator::{all_resolved, categorize, drawn, is_square, put_content, shapes_match};
use crate::generator_error::GeneratorError;
use crate::grid::{cell_at, dimensions, rectangular};
use crate::random::seeded;
use crate::tile::{resolved_terrain, Content, PreTileType, Tile, TileType};
use crate::vector2::{on_grid, Vector2};
use crate::zone::{covered, within};
use crate::zones::{
    all_within, centroids, classified, drawn_in_city, inside, lemma_classified_grid, roads_join,
    same_shape, Zones,
};
use crate::roads::is_chained;
use rand::rngs::StdRng;
use std::ops::Range;
use vstd::prelude::*;

verus! {

/// The terrain of every cell of a grid in which every cell has one.
pub fn terrains(world: &Vec<Vec<PreTileType>>) -> (out: Vec<Vec<TileType>>)
    requires
        all_resolved(world@),
    ensures
        same_shape(world@, out@),
        forall|p: Vector2|
            inside(world@, p) ==> Some(#[trigger] cell_at(out@, p)) == resolved_terrain(
                cell_at(world@, p),
            ),
{
    let mut out: Vec<Vec<TileType>> = Vec::new();
    let mut x: usize = 0;
    while x < world.len()
        invariant
            x <= world.len(),
            all_resolved(world@),
            out@.len() == x,
            forall|i: int| 0 <= i < x ==> (#[trigger] out@[i]).len() == world@[i].len(),
            forall|p: Vector2|
                p.x < x && inside(world@, p) ==> Some(#[trigger] cell_at(out@, p))
                    == resolved_terrain(cell_at(world@, p)),
        decreases world.len() - x,
    {
        let mut row: Vec<TileType> = Vec::new();
        let mut y: usize = 0;
        while y < world[x].len()
            invariant
                x < world.len(),
                y <= world[x as int].len(),
                all_resolved(world@),
                row@.len() == y,
                forall|j: int|
                    0 <= j < y ==> Some(#[trigger] row@[j]) == resolved_terrain(
                        world@[x as int]@[j],
                    ),
            decreases world[x as int].len() - y,
        {
            proof {
                let here = Vector2 { x, y };
                assert(inside(world@, here));
                assert(resolved_terrain(cell_at(world@, here)) is Some);
            }
            let terrain = match world[x][y].to_tiletype() {
                Some(t) => t,
                None => TileType::Grass,
            };
            row.push(terrain);
            y += 1;
        }
        let ghost before = out@;
        out.push(row);
        proof {
            assert forall|p: Vector2| p.x < x + 1 && inside(world@, p) implies Some(
                #[trigger] cell_at(out@, p),
            ) == resolved_terrain(cell_at(world@, p)) by {
                if p.x < x {
                    assert(out@[p.x as int] == before[p.x as int]);
                    assert(cell_at(out@, p) == cell_at(before, p));
                } else {
                    assert(cell_at(out@, p) == row@[p.y as int]);
                }
            }
            assert forall|i: int| 0 <= i < x + 1 implies (#[trigger] out@[i]).len()
                == world@[i].len() by {
                if i < x {
                    assert(out@[i] == before[i]);
                }
            }
        }
        x += 1;
    }
    out
}

/// A content for every cell: what the table gives the terrain of the cell for
/// a roll of the generator.
pub fn scatter(terrain: &Vec<Vec<TileType>>, dist: &ContentDist, rng: &mut StdRng) -> (out: Vec<
    Vec<Content>,
>)
    ensures
        same_shape(terrain@, out@),
        forall|p: Vector2|
            inside(terrain@, p) ==> drawn(
                dist@,
                cell_at(terrain@, p),
                #[trigger] cell_at(out@, p),
            ),
{
    let mut out: Vec<Vec<Content>> = Vec::new();
    let mut x: usize = 0;
    while x < terrain.len()
        invariant
            x <= terrain.len(),
            out@.len() == x,
            forall|i: int| 0 <= i < x ==> (#[trigger] out@[i]).len() == terrain@[i].len(),
            forall|p: Vector2|
                p.x < x && inside(terrain@, p) ==> drawn(
                    dist@,
                    cell_at(terrain@, p),
                    #[trigger] cell_at(out@, p),
                ),
        decreases terrain.len() - x,
    {
        let mut row: Vec<Content> = Vec::new();
        let mut y: usize = 0;
        while y < terrain[x].len()
            invariant
                x < terrain.len(),
                y <= terrain[x as int].len(),
                row@.len() == y,
                forall|j: int|
                    0 <= j < y ==> drawn(dist@, terrain@[x as int]@[j], #[trigger] row@[j]),
            decreases terrain[x as int].len() - y,
        {
            let content = put_content(dist, terrain[x][y], rng);
            row.push(content);
            y += 1;
        }
        let ghost before = out@;
        out.push(row);
        proof {
            assert forall|p: Vector2| p.x < x + 1 && inside(terrain@, p) implies drawn(
                dist@,
                cell_at(terrain@, p),
                #[trigger] cell_at(out@, p),
            ) by {
                if p.x < x {
                    assert(out@[p.x as int] == before[p.x as int]);
                    assert(cell_at(out@, p) == cell_at(before, p));
                } else {
                    assert(cell_at(out@, p) == row@[p.y as int]);
                }
            }
            assert forall|i: int| 0 <= i < x + 1 implies (#[trigger] out@[i]).len()
                == terrain@[i].len() by {
                if i < x {
                    assert(out@[i] == before[i]);
                }
            }
        }
        x += 1;
    }
    out
}

/// The tile of a cell: its terrain, its content and its elevation.
pub open spec fn tile_at(
    terrain: Seq<Vec<TileType>>,
    contents: Seq<Vec<Content>>,
    elevation: Seq<Vec<usize>>,
    p: Vector2,
) -> Tile {
    Tile {
        tile_type: cell_at(terrain, p),
        content: cell_at(contents, p),
        elevation: cell_at(elevation, p),
    }
}

/// Puts the three grids together, cell by cell. Grids whose rows differ in
/// length are refused.
pub fn to_tiles(
    terrain: &Vec<Vec<TileType>>,
    contents: &Vec<Vec<Content>>,
    elevation: &Vec<Vec<usize>>,
) -> (out: Result<Vec<Vec<Tile>>, GeneratorError>)
    ensures
        match out {
            Ok(tiles) => {
                &&& same_shape(terrain@, contents@)
                &&& same_shape(terrain@, elevation@)
                &&& same_shape(terrain@, tiles@)
                &&& forall|p: Vector2|
                    inside(terrain@, p) ==> #[trigger] cell_at(tiles@, p) == tile_at(
                        terrain@,
                        contents@,
                        elevation@,
                        p,
                    )
            },
            Err(e) => e == GeneratorError::InvalidWorldSize && !(same_shape(terrain@, contents@)
                && same_shape(terrain@, elevation@)),
        },
{
    if !shapes_match(terrain, contents) || !shapes_match(terrain, elevation) {
        return Err(GeneratorError::InvalidWorldSize);
    }
    let mut tiles: Vec<Vec<Tile>> = Vec::new();
    let mut x: usize = 0;
    while x < terrain.len()
        invariant
            x <= terrain.len(),
            same_shape(terrain@, contents@),
            same_shape(terrain@, elevation@),
            tiles@.len() == x,
            forall|i: int| 0 <= i < x ==> (#[trigger] tiles@[i]).len() == terrain@[i].len(),
            forall|p: Vector2|
                p.x < x && inside(terrain@, p) ==> #[trigger] cell_at(tiles@, p) == tile_at(
                    terrain@,
                    contents@,
                    elevation@,
                    p,
                ),
        decreases terrain.len() - x,
    {
        let mut row: Vec<Tile> = Vec::new();
        let mut y: usize = 0;
        assert(terrain@[x as int].len() == contents@[x as int].len());
        assert(terrain@[x as int].len() == elevation@[x as int].len());
        while y < terrain[x].len()
            invariant
                x < terrain.len(),
                x < contents.len(),
                x < elevation.len(),
                y <= terrain[x as int].len(),
                terrain@[x as int].len() == contents@[x as int].len(),
                terrain@[x as int].len() == elevation@[x as int].len(),
                row@.len() == y,
                forall|j: int|
                    0 <= j < y ==> #[trigger] row@[j] == (Tile {
                        tile_type: terrain@[x as int]@[j],
                        content: contents@[x as int]@[j],
                        elevation: elevation@[x as int]@[j],
                    }),
            decreases terrain[x as int].len() - y,
        {
            row.push(
                Tile { tile_type: terrain[x][y], content: contents[x][y], elevation: elevation[x][y] },
            );
            y += 1;
        }
        let ghost before = tiles@;
        tiles.push(row);
        proof {
            assert forall|p: Vector2| p.x < x + 1 && inside(terrain@, p) implies #[trigger] cell_at(
                tiles@,
                p,
            ) == tile_at(terrain@, contents@, elevation@, p) by {
                if p.x < x {
                    assert(tiles@[p.x as int] == before[p.x as int]);
                    assert(cell_at(tiles@, p) == cell_at(before, p));
                } else {
                    assert(cell_at(tiles@, p) == row@[p.y as int]);
                }
            }
            assert forall|i: int| 0 <= i < x + 1 implies (#[trigger] tiles@[i]).len()
                == terrain@[i].len() by {
                if i < x {
                    assert(tiles@[i] == before[i]);
                }
            }
        }
        x += 1;
    }
    Ok(tiles)
}

/// Why a run is refused, if it is: for the first fault of the category table,
/// else for the first fault of the content table, else for the first fault of
/// the settlement table, taken as a list for grass, else for the size of the
/// grid, which must be square, with the elevations given for the same cells.
pub open spec fn gen_refusal(
    percentiles: Seq<Vec<usize>>,
    elevation: Seq<Vec<usize>>,
    noise: NoiseDist,
    contents: ContentMap,
    city: Seq<(Range<usize>, Content)>,
    rules: HoldRules,
) -> Option<GeneratorError> {
    if range_fault(noise@) is Some {
        range_fault(noise@)
    } else if table_fault(contents, rules) is Some {
        table_fault(contents, rules)
    } else if content_fault(TileType::Grass, city, rules) is Some {
        content_fault(TileType::Grass, city, rules)
    } else if !(is_square(percentiles) && same_shape(percentiles, elevation)) {
        Some(GeneratorError::InvalidWorldSize)
    } else {
        None
    }
}

/// The stages by which the tiles came about: `given` are the categories of
/// the percentiles; `sorted` is what classification and the roads between the
/// chained settlements made of them, with the regions `zones`. Each tile has
/// the terrain of its cell in `sorted` and the elevation given for the cell; a
/// grass cell of a settlement holds what the settlement table gives for a
/// roll, every other cell what the content table gives its terrain for a roll.
pub open spec fn is_furnished(
    percentiles: Seq<Vec<usize>>,
    elevation: Seq<Vec<usize>>,
    noise: NoiseDist,
    contents: ContentMap,
    city: Seq<(Range<usize>, Content)>,
    tiles: Seq<Vec<Tile>>,
    given: Seq<Vec<PreTileType>>,
    sorted: Seq<Vec<PreTileType>>,
    zones: Zones,
) -> bool {
    let size = percentiles.len() as usize;
    &&& same_shape(percentiles, given)
    &&& forall|p: Vector2|
        inside(percentiles, p) ==> #[trigger] cell_at(given, p) == lookup(
            noise@,
            cell_at(percentiles, p),
            PreTileType::Void,
        )
    &&& classified(given, sorted, size, size, zones)
    &&& is_chained(centroids(zones.cities@))
    &&& roads_join(given, sorted, size, size, zones)
    &&& same_shape(percentiles, tiles)
    &&& forall|p: Vector2|
        inside(percentiles, p) ==> {
            let tile = #[trigger] cell_at(tiles, p);
            &&& Some(tile.tile_type) == resolved_terrain(cell_at(sorted, p))
            &&& tile.elevation == cell_at(elevation, p)
            &&& if covered(zones.cities@, p) && tile.tile_type == TileType::Grass {
                drawn_in_city(city, tile.content)
            } else {
                drawn(contents, tile.tile_type, tile.content)
            }
        }
}

/// The grid of tiles is a world with furnished settlements, built from the
/// percentiles by the stages of `is_furnished`.
pub open spec fn is_furnished_world(
    percentiles: Seq<Vec<usize>>,
    elevation: Seq<Vec<usize>>,
    noise: NoiseDist,
    contents: ContentMap,
    city: Seq<(Range<usize>, Content)>,
    tiles: Seq<Vec<Tile>>,
) -> bool {
    exists|given: Seq<Vec<PreTileType>>, sorted: Seq<Vec<PreTileType>>, zones: Zones| #[trigger]
        is_furnished(percentiles, elevation, noise, contents, city, tiles, given, sorted, zones)
}

/// Builds a world with furnished settlements for a grid of elevation
/// percentiles.
///
/// The tables are checked first; a run with a table at fault is refused with
/// the fault, before any work on the grid. Then every percentile gets its
/// category; the regions are found and classified, the settlements chained
/// and the roads laid between them; every cell gets the content that the
/// content table gives its terrain for a roll, and every grass cell of a
/// settlement then the content that the settlement table gives for a roll.
/// All that is drawn comes from a generator started from `seed`.
pub fn gen_world(
    percentiles: &Vec<Vec<usize>>,
    elevation: &Vec<Vec<usize>>,
    noise_dist: &NoiseDist,
    content_dist: &ContentDist,
    city_content_dist: &CityContentDist,
    rules: &HoldRules,
    seed: u64,
) -> (out: Result<Vec<Vec<Tile>>, GeneratorError>)
    ensures
        match out {
            Ok(tiles) => gen_refusal(
                percentiles@,
                elevation@,
                *noise_dist,
                content_dist@,
                city_content_dist@,
                *rules,
            ) is None && is_furnished_world(
                percentiles@,
                elevation@,
                *noise_dist,
                content_dist@,
                city_content_dist@,
                tiles@,
            ),
            Err(e) => gen_refusal(
                percentiles@,
                elevation@,
                *noise_dist,
                content_dist@,
                city_content_dist@,
                *rules,
            ) == Some(e),
        },
{
    match noise_dist.is_valid() {
        Ok(()) => {},
        Err(e) => {
            return Err(e);
        },
    }
    match content_dist.is_valid(rules) {
        Ok(()) => {},
        Err(e) => {
            return Err(e);
        },
    }
    match city_content_dist.is_valid(TileType::Grass, rules) {
        Ok(()) => {},
        Err(e) => {
            return Err(e);
        },
    }
    let size = match dimensions(percentiles) {
        Some((rows, columns)) => {
            if rows != columns {
                proof {
                    assert(percentiles@[0].len() != percentiles@.len());
                }
                return Err(GeneratorError::InvalidWorldSize);
            }
            rows
        },
        None => {
            return Err(GeneratorError::InvalidWorldSize);
        },
    };
    if !shapes_match(percentiles, elevation) {
        return Err(GeneratorError::InvalidWorldSize);
    }
    let mut rng = seeded(seed);
    let mut world = categorize(percentiles, noise_dist);
    let ghost given = world@;
    proof {
        assert(rectangular(given, size, size)) by {
            assert forall|i: int| 0 <= i < given.len() implies (#[trigger] given[i]).len()
                == size by {
                assert(percentiles@[i].len() == size);
            }
        }
    }
    let zones = Zones::get_zones(&mut world, &mut rng);
    let ghost sorted = world@;
    proof {
        lemma_classified_grid(given, sorted, size, size, zones);
        assert forall|p: Vector2| inside(sorted, p) implies resolved_terrain(
            #[trigger] cell_at(sorted, p),
        ) is Some by {
            assert(on_grid(p, size, size));
        }
    }
    let terrain = terrains(&world);
    let mut contents = scatter(&terrain, content_dist, &mut rng);
    let ghost scattered = contents@;
    proof {
        assert(rectangular(terrain@, size, size)) by {
            assert forall|i: int| 0 <= i < terrain@.len() implies (#[trigger] terrain@[i]).len()
                == size by {
                assert(sorted[i].len() == size);
            }
        }
        assert(rectangular(scattered, size, size)) by {
            assert forall|i: int| 0 <= i < scattered.len() implies (#[trigger] scattered[i]).len()
                == size by {
                assert(terrain@[i].len() == size);
            }
        }
        lemma_regions_lie_within(terrain@, zones.cities@, size);
        lemma_regions_lie_within(scattered, zones.cities@, size);
    }
    zones.fill_cities_with_content(&terrain, &mut contents, city_content_dist, &mut rng);
    proof {
        assert(same_shape(terrain@, contents@)) by {
            assert forall|i: int| 0 <= i < terrain@.len() implies (#[trigger] terrain@[i]).len()
                == contents@[i].len() by {
                assert(scattered[i].len() == contents@[i].len());
            }
        }
        assert(same_shape(terrain@, elevation@)) by {
            assert forall|i: int| 0 <= i < terrain@.len() implies (#[trigger] terrain@[i]).len()
                == elevation@[i].len() by {
                assert(sorted[i].len() == size);
                assert(percentiles@[i].len() == size);
            }
        }
    }
    match to_tiles(&terrain, &contents, elevation) {
        Ok(tiles) => {
            proof {
                assert(same_shape(percentiles@, tiles@)) by {
                    assert forall|i: int| 0 <= i < percentiles@.len() implies (
                    #[trigger] percentiles@[i]).len() == tiles@[i].len() by {
                        assert(sorted[i].len() == size);
                        assert(terrain@[i].len() == sorted[i].len());
                    }
                }
                assert forall|p: Vector2| inside(percentiles@, p) implies {
                    let tile = #[trigger] cell_at(tiles@, p);
                    &&& Some(tile.tile_type) == resolved_terrain(cell_at(sorted, p))
                    &&& tile.elevation == cell_at(elevation@, p)
                    &&& if covered(zones.cities@, p) && tile.tile_type == TileType::Grass {
                        drawn_in_city(city_content_dist@, tile.content)
                    } else {
                        drawn(content_dist@, tile.tile_type, tile.content)
                    }
                } by {
                    assert(sorted[p.x as int].len() == size);
                    assert(terrain@[p.x as int].len() == sorted[p.x as int].len());
                    assert(scattered[p.x as int].len() == terrain@[p.x as int].len());
                    assert(inside(sorted, p) && inside(terrain@, p) && inside(scattered, p));
                    assert(cell_at(tiles@, p) == tile_at(terrain@, contents@, elevation@, p));
                    assert(Some(cell_at(terrain@, p)) == resolved_terrain(cell_at(sorted, p)));
                    assert(drawn(content_dist@, cell_at(terrain@, p), cell_at(scattered, p)));
                }
                assert(is_furnished(
                    percentiles@,
                    elevation@,
                    *noise_dist,
                    content_dist@,
                    city_content_dist@,
                    tiles@,
                    given,
                    sorted,
                    zones,
                ));
            }
            Ok(tiles)
        },
        Err(e) => Err(e),
    }
}

/// Regions whose cells lie on a square grid lie within any grid of that shape.
proof fn lemma_regions_lie_within<T>(g: Seq<Vec<T>>, regions: Seq<crate::zone::Zone>, size: usize)
    requires
        rectangular(g, size, size),
        forall|p: Vector2| #[trigger] covered(regions, p) ==> on_grid(p, size, size),
    ensures
        all_within(g, regions),
{
    assert forall|k: int| 0 <= k < regions.len() implies within(
        g,
        (#[trigger] regions[k]).inner@,
    ) by {
        let cells = regions[k].inner@;
        assert forall|i: int| 0 <= i < cells.len() implies (#[trigger] cells[i]).x < g.len()
            && cells[i].y < g[cells[i].x as int].len() by {
            assert(cells.contains(cells[i]));
            assert(covered(regions, cells[i]));
        }
    }
}

} // verus!
