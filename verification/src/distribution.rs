//! Distribution tables: ordered ranges over the percentiles 0 to 99, each
//! with the value that a percentile in it stands for.

use crate::generator_error::GeneratorError;
use crate::random::choose_one;
use crate::tile::{
    content_kind, slot_terrain, terrain_slot, Content, PreTile, PreTileType, TileType,
    CONTENT_KINDS, TERRAIN_KEYS,
};
use rand::rngs::StdRng;
use std::ops::Range;
use vstd::prelude::*;

verus! {

/// One more than the highest percentile.
pub const PERCENTILES: usize = 100;

/// The range holds the number.
pub open spec fn holds(r: Range<usize>, v: usize) -> bool {
    r.start <= v < r.end
}

/// The index of the first range from `from` on that holds `v`; the length of
/// the list if there is none.
pub open spec fn first_hit<T>(list: Seq<(Range<usize>, T)>, v: usize, from: int) -> int
    decreases list.len() - from,
{
    if from >= list.len() {
        list.len() as int
    } else if holds(list[from].0, v) {
        from
    } else {
        first_hit(list, v, from + 1)
    }
}

/// What a list of ranges gives for `v`: the value of the first range that
/// holds `v`; if none does, the value of the last range; `fallback` if the
/// list is empty.
pub open spec fn lookup<T>(list: Seq<(Range<usize>, T)>, v: usize, fallback: T) -> T {
    if list.len() == 0 {
        fallback
    } else if first_hit(list, v, 0) < list.len() {
        list[first_hit(list, v, 0)].1
    } else {
        list.last().1
    }
}

/// The ranges are not empty and each begins where the one before it ends.
pub open spec fn in_sequence<T>(list: Seq<(Range<usize>, T)>) -> bool {
    &&& forall|i: int| 0 <= i < list.len() ==> (#[trigger] list[i]).0.start < list[i].0.end
    &&& forall|i: int, j: int|
        0 <= i < list.len() && j == i + 1 && j < list.len() ==> (#[trigger] list[i]).0.end == (
        #[trigger] list[j]).0.start
}

/// The ranges cover the percentiles exactly: they are in sequence, the first
/// begins at 0 and the last ends at 100.
pub open spec fn covers_percentiles<T>(list: Seq<(Range<usize>, T)>) -> bool {
    &&& list.len() > 0
    &&& in_sequence(list)
    &&& list[0].0.start == 0
    &&& list.last().0.end == PERCENTILES
}

/// What is wrong with the ranges of a list, if anything: the first range that
/// is empty or does not begin where the one before it ends makes the list
/// overlapping; a list that is in sequence and does not run from 0 to 100, or
/// is empty, is not exhaustive.
pub open spec fn range_fault<T>(list: Seq<(Range<usize>, T)>) -> Option<GeneratorError> {
    if list.len() == 0 {
        Some(GeneratorError::NonExhaustiveContentDistribution)
    } else if !in_sequence(list) {
        Some(GeneratorError::OverlappingDistribution)
    } else if !(list[0].0.start == 0 && list.last().0.end == PERCENTILES) {
        Some(GeneratorError::NonExhaustiveContentDistribution)
    } else {
        None
    }
}

/// The first hit from `from` on is the first index from there on whose range holds `v`.
pub proof fn lemma_first_hit<T>(list: Seq<(Range<usize>, T)>, v: usize, from: int)
    requires
        0 <= from <= list.len(),
    ensures
        from <= first_hit(list, v, from) <= list.len(),
        first_hit(list, v, from) < list.len() ==> holds(list[first_hit(list, v, from)].0, v),
        forall|i: int| from <= i < first_hit(list, v, from) ==> !holds((#[trigger] list[i]).0, v),
    decreases list.len() - from,
{
    if from < list.len() && !holds(list[from].0, v) {
        lemma_first_hit(list, v, from + 1);
    }
}

/// Ranges in sequence run from the beginning of the first to the end of the last.
pub proof fn lemma_sequence_spans<T>(list: Seq<(Range<usize>, T)>, i: int, v: usize)
    requires
        in_sequence(list),
        0 <= i < list.len(),
        list[0].0.start <= v < list[i].0.end,
    ensures
        exists|k: int| 0 <= k <= i && holds((#[trigger] list[k]).0, v),
    decreases i,
{
    if v >= list[i].0.start {
        assert(holds(list[i].0, v));
    } else {
        assert(i > 0);
        assert(list[i - 1].0.end == list[i].0.start);
        lemma_sequence_spans(list, i - 1, v);
    }
}

/// Ranges in sequence lie in ascending order.
pub proof fn lemma_sequence_ascends<T>(list: Seq<(Range<usize>, T)>, i: int, j: int)
    requires
        in_sequence(list),
        0 <= i < j < list.len(),
    ensures
        list[i].0.end <= list[j].0.start,
    decreases j - i,
{
    if j == i + 1 {
    } else {
        lemma_sequence_ascends(list, i, j - 1);
        assert(list[j - 1].0.end == list[j].0.start);
    }
}

/// In a list that covers the percentiles, exactly one range holds a given
/// percentile, and the list gives the value of that range.
pub proof fn lemma_lookup_is_exact<T>(list: Seq<(Range<usize>, T)>, p: usize, fallback: T)
    requires
        covers_percentiles(list),
        p < PERCENTILES,
    ensures
        exists|i: int|
            0 <= i < list.len() && holds((#[trigger] list[i]).0, p) && lookup(list, p, fallback)
                == list[i].1,
        forall|i: int, j: int|
            0 <= i < list.len() && 0 <= j < list.len() && holds((#[trigger] list[i]).0, p) && holds(
                (#[trigger] list[j]).0,
                p,
            ) ==> i == j,
{
    lemma_sequence_spans(list, list.len() - 1, p);
    lemma_first_hit(list, p, 0);
    let hit = first_hit(list, p, 0);
    assert(hit < list.len());
    assert(holds(list[hit].0, p));
    assert forall|i: int, j: int|
        0 <= i < list.len() && 0 <= j < list.len() && holds((#[trigger] list[i]).0, p) && holds(
            (#[trigger] list[j]).0,
            p,
        ) implies i == j by {
        if i < j {
            lemma_sequence_ascends(list, i, j);
        } else if j < i {
            lemma_sequence_ascends(list, j, i);
        }
    }
}

/// What a list of ranges gives for `value`.
pub fn pick<T: Copy>(list: &Vec<(Range<usize>, T)>, value: usize, fallback: T) -> (out: T)
    ensures
        out == lookup(list@, value, fallback),
{
    let mut i: usize = 0;
    while i < list.len()
        invariant
            i <= list.len(),
            first_hit(list@, value, 0) == first_hit(list@, value, i as int),
        decreases list.len() - i,
    {
        if list[i].0.start <= value && value < list[i].0.end {
            return list[i].1;
        }
        i += 1;
    }
    if list.len() == 0 {
        fallback
    } else {
        list[list.len() - 1].1
    }
}

/// Checks the ranges of a list.
pub fn check_ranges<T>(list: &Vec<(Range<usize>, T)>) -> (out: Result<(), GeneratorError>)
    ensures
        match out {
            Ok(()) => range_fault(list@) is None,
            Err(e) => range_fault(list@) == Some(e),
        },
{
    if list.len() == 0 {
        return Err(GeneratorError::NonExhaustiveContentDistribution);
    }
    let mut i: usize = 0;
    while i < list.len()
        invariant
            i <= list.len(),
            in_sequence(list@.take(i as int)),
        decreases list.len() - i,
    {
        let fits = list[i].0.start < list[i].0.end && (i == 0 || list[i - 1].0.end
            == list[i].0.start);
        if !fits {
            proof {
                if in_sequence(list@) {
                    if i > 0 {
                        assert(list@[i - 1].0.end == list@[i as int].0.start);
                    }
                }
            }
            return Err(GeneratorError::OverlappingDistribution);
        }
        proof {
            let upto = list@.take(i + 1);
            let was = list@.take(i as int);
            assert forall|a: int| 0 <= a < upto.len() implies (#[trigger] upto[a]).0.start
                < upto[a].0.end by {
                if a < i {
                    assert(upto[a] == was[a]);
                }
            }
            assert forall|a: int, b: int|
                0 <= a < upto.len() && b == a + 1 && b < upto.len() implies (
            #[trigger] upto[a]).0.end == (#[trigger] upto[b]).0.start by {
                if b < i {
                    assert(upto[a] == was[a]);
                    assert(upto[b] == was[b]);
                }
            }
        }
        i += 1;
    }
    proof {
        assert(list@.take(list@.len() as int) =~= list@);
    }
    if !(list[0].0.start == 0 && list[list.len() - 1].0.end == PERCENTILES) {
        return Err(GeneratorError::NonExhaustiveContentDistribution);
    }
    Ok(())
}

/// Which content each terrain can hold, by kind of content.
pub struct HoldRules {
    allowed: Vec<Vec<bool>>,
}

impl HoldRules {
    /// The terrain can hold content of that kind.
    pub closed spec fn permits(&self, tile: TileType, content: Content) -> bool {
        let slot = terrain_slot(tile);
        let kind = content_kind(content);
        slot < self.allowed@.len() && kind < self.allowed@[slot]@.len() && self.allowed@[slot]@[kind]
    }

    /// Rules under which no terrain can hold anything.
    pub fn new() -> (rules: Self)
        ensures
            forall|t: TileType, c: Content| !rules.permits(t, c),
    {
        HoldRules { allowed: Vec::new() }
    }

    /// Rules that answer `value` for every terrain and every kind of content.
    fn filled(value: bool) -> (rules: Self)
        ensures
            rules.allowed@.len() == TERRAIN_KEYS,
            forall|i: int|
                0 <= i < TERRAIN_KEYS ==> (#[trigger] rules.allowed@[i])@ =~= Seq::new(
                    CONTENT_KINDS as nat,
                    |j: int| value,
                ),
    {
        let mut allowed: Vec<Vec<bool>> = Vec::new();
        let mut i: usize = 0;
        while i < TERRAIN_KEYS
            invariant
                i <= TERRAIN_KEYS,
                allowed@.len() == i,
                forall|a: int|
                    0 <= a < i ==> (#[trigger] allowed@[a])@ =~= Seq::new(
                        CONTENT_KINDS as nat,
                        |j: int| value,
                    ),
            decreases TERRAIN_KEYS - i,
        {
            let mut row: Vec<bool> = Vec::new();
            let mut j: usize = 0;
            while j < CONTENT_KINDS
                invariant
                    j <= CONTENT_KINDS,
                    row@ =~= Seq::new(j as nat, |j: int| value),
                decreases CONTENT_KINDS - j,
            {
                row.push(value);
                j += 1;
            }
            allowed.push(row);
            i += 1;
        }
        HoldRules { allowed }
    }

    /// Rules under which every terrain can hold everything.
    pub fn permissive() -> (rules: Self)
        ensures
            forall|t: TileType, c: Content| rules.permits(t, c),
    {
        let rules = Self::filled(true);
        proof {
            assert forall|t: TileType, c: Content| rules.permits(t, c) by {
                let i = terrain_slot(t);
                let j = content_kind(c);
                assert(rules.allowed@[i]@ =~= Seq::new(CONTENT_KINDS as nat, |j: int| true));
            }
        }
        rules
    }

    /// Lets the terrain hold content of the kind of `content`.
    pub fn allow(&mut self, tile: TileType, content: Content)
        ensures
            forall|t: TileType, c: Content|
                final(self).permits(t, c) <==> old(self).permits(t, c) || (t == tile
                    && content_kind(c) == content_kind(content)),
    {
        let slot = tile.slot();
        let kind = content.kind();
        let ghost before = self.allowed@;
        while self.allowed.len() <= slot
            invariant
                forall|i: int| 0 <= i < before.len() ==> #[trigger] self.allowed@[i] == before[i],
                before.len() <= self.allowed@.len(),
                forall|i: int|
                    before.len() <= i < self.allowed@.len() ==> (#[trigger] self.allowed@[i])@.len()
                        == 0,
            decreases slot + 1 - self.allowed.len(),
        {
            self.allowed.push(Vec::new());
        }
        let ghost widened = self.allowed@;
        let mut row: Vec<bool> = Vec::new();
        let mut j: usize = 0;
        let width = if self.allowed[slot].len() > kind {
            self.allowed[slot].len()
        } else {
            kind + 1
        };
        while j < width
            invariant
                j <= width,
                slot < self.allowed@.len(),
                self.allowed@ == widened,
                kind < width,
                width >= widened[slot as int]@.len(),
                row@.len() == j,
                forall|b: int|
                    0 <= b < j ==> #[trigger] row@[b] == (b == kind || (b
                        < widened[slot as int]@.len() && widened[slot as int]@[b])),
            decreases width - j,
        {
            let was = j < self.allowed[slot].len() && self.allowed[slot][j];
            row.push(j == kind || was);
            j += 1;
        }
        self.allowed[slot] = row;
        proof {
            assert forall|t: TileType, c: Content|
                final(self).permits(t, c) <==> old(self).permits(t, c) || (t == tile
                    && content_kind(c) == content_kind(content)) by {
                let i = terrain_slot(t);
                let k = content_kind(c);
                if i != slot {
                    if i < widened.len() {
                        assert(self.allowed@[i] == widened[i]);
                    }
                    if i < before.len() {
                        assert(widened[i] == before[i]);
                    }
                } else {
                    if slot < before.len() {
                        assert(widened[i] == before[i]);
                    }
                    if k < width {
                        assert(row@[k] == (k == kind || (k < widened[slot as int]@.len()
                            && widened[slot as int]@[k])));
                    }
                }
            }
        }
    }

    /// Whether the terrain can hold the content.
    pub fn can_hold(&self, tile: TileType, content: &Content) -> (b: bool)
        ensures
            b == self.permits(tile, *content),
    {
        let slot = tile.slot();
        let kind = content.kind();
        slot < self.allowed.len() && kind < self.allowed[slot].len() && self.allowed[slot][kind]
    }
}

/// What is wrong with the entries of a terrain's list from entry `from` on,
/// looked at in order: an entry whose content the terrain cannot hold, or else
/// whose range is empty or does not begin where the range before it ends.
pub open spec fn entry_fault(
    tile: TileType,
    list: Seq<(Range<usize>, Content)>,
    rules: HoldRules,
    from: int,
) -> Option<GeneratorError>
    decreases list.len() - from,
{
    if from < 0 || from >= list.len() {
        None
    } else if !rules.permits(tile, list[from].1) {
        Some(GeneratorError::InvalidContent(tile, list[from].1))
    } else if !(list[from].0.start < list[from].0.end) || (from > 0 && list[from - 1].0.end
        != list[from].0.start) {
        Some(GeneratorError::OverlappingDistribution)
    } else {
        entry_fault(tile, list, rules, from + 1)
    }
}

/// What is wrong with a terrain's list, if anything: that it is empty, the
/// first fault of an entry, or that it does not run from 0 to 100.
pub open spec fn content_fault(
    tile: TileType,
    list: Seq<(Range<usize>, Content)>,
    rules: HoldRules,
) -> Option<GeneratorError> {
    if list.len() == 0 {
        Some(GeneratorError::NonExhaustiveContentDistribution)
    } else if entry_fault(tile, list, rules, 0) is Some {
        entry_fault(tile, list, rules, 0)
    } else if !(list[0].0.start == 0 && list.last().0.end == PERCENTILES) {
        Some(GeneratorError::NonExhaustiveContentDistribution)
    } else {
        None
    }
}

/// The terrain can hold every content of the list.
pub open spec fn all_held(tile: TileType, list: Seq<(Range<usize>, Content)>, rules: HoldRules) -> bool {
    forall|i: int| 0 <= i < list.len() ==> rules.permits(tile, (#[trigger] list[i]).1)
}

/// No entry from `from` on is at fault exactly when the terrain can hold every
/// content from there on and the ranges from there on are in sequence.
pub proof fn lemma_entry_fault(
    tile: TileType,
    list: Seq<(Range<usize>, Content)>,
    rules: HoldRules,
    from: int,
)
    requires
        0 <= from <= list.len(),
    ensures
        entry_fault(tile, list, rules, from) is None <==> forall|i: int|
            from <= i < list.len() ==> rules.permits(tile, (#[trigger] list[i]).1) && list[i].0.start
                < list[i].0.end && (i > 0 ==> list[i - 1].0.end == list[i].0.start),
    decreases list.len() - from,
{
    if from < list.len() {
        lemma_entry_fault(tile, list, rules, from + 1);
        if entry_fault(tile, list, rules, from) is None {
            assert forall|i: int| from <= i < list.len() implies rules.permits(
                tile,
                (#[trigger] list[i]).1,
            ) && list[i].0.start < list[i].0.end && (i > 0 ==> list[i - 1].0.end
                == list[i].0.start) by {
                if i > from {
                }
            }
        } else {
            if rules.permits(tile, list[from].1) && list[from].0.start < list[from].0.end && (from
                > 0 ==> list[from - 1].0.end == list[from].0.start) {
                assert(entry_fault(tile, list, rules, from + 1) is Some);
            } else {
                assert(list[from] == list[from]);
            }
        }
    }
}

/// A terrain's list is without fault exactly when it covers the percentiles
/// and the terrain can hold every content in it.
pub proof fn lemma_content_fault(
    tile: TileType,
    list: Seq<(Range<usize>, Content)>,
    rules: HoldRules,
)
    ensures
        content_fault(tile, list, rules) is None <==> covers_percentiles(list) && all_held(
            tile,
            list,
            rules,
        ),
{
    lemma_entry_fault(tile, list, rules, 0);
    if covers_percentiles(list) && all_held(tile, list, rules) {
        assert forall|i: int| 0 <= i < list.len() implies rules.permits(
            tile,
            (#[trigger] list[i]).1,
        ) && list[i].0.start < list[i].0.end && (i > 0 ==> list[i - 1].0.end
            == list[i].0.start) by {
            if i > 0 {
                assert(list[i - 1].0.end == list[i].0.start);
            }
        }
    }
    if content_fault(tile, list, rules) is None {
        assert forall|i: int, j: int|
            0 <= i < list.len() && j == i + 1 && j < list.len() implies (#[trigger] list[i]).0.end
            == (#[trigger] list[j]).0.start by {
            assert(rules.permits(tile, list[j].1));
        }
        assert forall|i: int| 0 <= i < list.len() implies (#[trigger] list[i]).0.start
            < list[i].0.end by {
            assert(rules.permits(tile, list[i].1));
        }
    }
}

/// Checks a terrain's list of contents.
pub fn check_contents(tile: TileType, list: &Vec<(Range<usize>, Content)>, rules: &HoldRules) -> (out:
    Result<(), GeneratorError>)
    ensures
        match out {
            Ok(()) => content_fault(tile, list@, *rules) is None,
            Err(e) => content_fault(tile, list@, *rules) == Some(e),
        },
{
    if list.len() == 0 {
        return Err(GeneratorError::NonExhaustiveContentDistribution);
    }
    let mut i: usize = 0;
    while i < list.len()
        invariant
            i <= list.len(),
            entry_fault(tile, list@, *rules, 0) == entry_fault(tile, list@, *rules, i as int),
        decreases list.len() - i,
    {
        if !rules.can_hold(tile, &list[i].1) {
            return Err(GeneratorError::InvalidContent(tile, list[i].1));
        }
        let fits = list[i].0.start < list[i].0.end && (i == 0 || list[i - 1].0.end
            == list[i].0.start);
        if !fits {
            return Err(GeneratorError::OverlappingDistribution);
        }
        i += 1;
    }
    if !(list[0].0.start == 0 && list[list.len() - 1].0.end == PERCENTILES) {
        return Err(GeneratorError::NonExhaustiveContentDistribution);
    }
    Ok(())
}

/// The table that turns an elevation percentile into a working category.
pub struct NoiseDist {
    dist: Vec<(Range<usize>, PreTileType)>,
}

impl View for NoiseDist {
    type V = Seq<(Range<usize>, PreTileType)>;

    closed spec fn view(&self) -> Seq<(Range<usize>, PreTileType)> {
        self.dist@
    }
}

impl NoiseDist {
    /// The table with the ranges given, in their order.
    pub fn new(dist: Vec<(Range<usize>, PreTileType)>) -> (table: Self)
        ensures
            table@ == dist@,
    {
        Self { dist }
    }

    /// The category of an elevation percentile; the placeholder if the table is empty.
    pub fn get(&self, position: usize) -> (out: PreTileType)
        ensures
            out == lookup(self@, position, PreTileType::Void),
    {
        pick(&self.dist, position, PreTileType::Void)
    }

    /// Checks that the ranges of the table cover the percentiles.
    pub fn is_valid(&self) -> (out: Result<(), GeneratorError>)
        ensures
            match out {
                Ok(()) => range_fault(self@) is None,
                Err(e) => range_fault(self@) == Some(e),
            },
    {
        check_ranges(&self.dist)
    }
}

/// The ranges of the default category table: deep water, water, coast,
/// grass, upland and hazard, from the lowest percentile to the highest.
pub open spec fn default_categories() -> Seq<(Range<usize>, PreTileType)> {
    seq![
        (span(0, 32), PreTileType::DeepWater),
        (span(32, 42), PreTileType::Water),
        (span(42, 52), PreTileType::Zone(0)),
        (span(52, 70), PreTileType::Grass),
        (span(70, 81), PreTileType::Zone(1)),
        (span(81, 100), PreTileType::Zone(2)),
    ]
}

/// The ranges of the default settlement table.
pub open spec fn default_city_contents() -> Seq<(Range<usize>, Content)> {
    seq![
        (span(0, 60), Content::Empty),
        (span(60, 65), Content::Market(2)),
        (span(65, 70), Content::Bank(0, 100)),
        (span(70, 75), Content::Coin(10)),
        (span(75, 80), Content::Crate(0, 100)),
        (span(80, 85), Content::Garbage(1)),
        (span(85, 90), Content::Tree(1)),
        (span(90, 100), Content::Building),
    ]
}

/// The default category table and the default settlement table cover the percentiles.
pub proof fn lemma_default_ranges_cover()
    ensures
        covers_percentiles(default_categories()),
        covers_percentiles(default_city_contents()),
{
}

impl Default for NoiseDist {
    /// The table of `default_categories`.
    fn default() -> (table: Self)
        ensures
            table@ == default_categories(),
    {
        let mut dist: Vec<(Range<usize>, PreTileType)> = Vec::new();
        dist.push((0..32, PreTileType::DeepWater));
        dist.push((32..42, PreTileType::Water));
        dist.push((42..52, PreTileType::Zone(0)));
        dist.push((52..70, PreTileType::Grass));
        dist.push((70..81, PreTileType::Zone(1)));
        dist.push((81..100, PreTileType::Zone(2)));
        let table = Self { dist };
        assert(table@ =~= default_categories());
        table
    }
}

/// The table that gives the content of a settlement cell for a roll.
pub struct CityContentDist {
    dist: Vec<(Range<usize>, Content)>,
}

impl View for CityContentDist {
    type V = Seq<(Range<usize>, Content)>;

    closed spec fn view(&self) -> Seq<(Range<usize>, Content)> {
        self.dist@
    }
}

impl CityContentDist {
    /// The table with the ranges given, in their order.
    pub fn new(dist: Vec<(Range<usize>, Content)>) -> (table: Self)
        ensures
            table@ == dist@,
    {
        Self { dist }
    }

    /// The content for a roll; nothing if the table is empty.
    pub fn get_content(&self, value: usize) -> (out: Content)
        ensures
            out == lookup(self@, value, Content::Empty),
    {
        pick(&self.dist, value, Content::Empty)
    }

    /// Checks the table as the list of a terrain that a settlement is built on.
    pub fn is_valid(&self, tile: TileType, rules: &HoldRules) -> (out: Result<(), GeneratorError>)
        ensures
            match out {
                Ok(()) => content_fault(tile, self@, *rules) is None,
                Err(e) => content_fault(tile, self@, *rules) == Some(e),
            },
    {
        check_contents(tile, &self.dist, rules)
    }
}

impl Default for CityContentDist {
    /// The table of `default_city_contents`.
    fn default() -> (table: Self)
        ensures
            table@ == default_city_contents(),
    {
        let mut dist: Vec<(Range<usize>, Content)> = Vec::new();
        dist.push((0..60, Content::Empty));
        dist.push((60..65, Content::Market(2)));
        dist.push((65..70, Content::Bank(0, 100)));
        dist.push((70..75, Content::Coin(10)));
        dist.push((75..80, Content::Crate(0, 100)));
        dist.push((80..85, Content::Garbage(1)));
        dist.push((85..90, Content::Tree(1)));
        dist.push((90..100, Content::Building));
        let table = Self { dist };
        assert(table@ =~= default_city_contents());
        table
    }
}

/// Number of terrains that a content table must have a list for: all but the
/// active teleport.
pub const REQUIRED_KEYS: usize = 11;

/// The table that gives, for each terrain, the content of a cell for a roll:
/// a map from terrain to list. The lists are kept by the slots of their
/// terrains, so that a terrain has one list at most.
pub struct ContentDist {
    tables: Vec<Option<Vec<(Range<usize>, Content)>>>,
}

/// A content table as a map from terrain to list.
pub type ContentMap = Map<TileType, Seq<(Range<usize>, Content)>>;

/// What is wrong with the lists of the required terrains from slot `from` on,
/// taken in the order of their slots.
pub open spec fn keys_fault(table: ContentMap, rules: HoldRules, from: int) -> Option<
    GeneratorError,
>
    decreases REQUIRED_KEYS - from,
{
    if from < 0 || from >= REQUIRED_KEYS {
        None
    } else if content_fault(slot_terrain(from), table[slot_terrain(from)], rules) is Some {
        content_fault(slot_terrain(from), table[slot_terrain(from)], rules)
    } else {
        keys_fault(table, rules, from + 1)
    }
}

/// What is wrong with a content table, if anything. A table that has no list
/// for a required terrain is not exhaustive; else a table with a list for the
/// active teleport is refused for that; else the first fault of a list decides,
/// the lists taken in the order of their terrains' slots.
pub open spec fn table_fault(table: ContentMap, rules: HoldRules) -> Option<GeneratorError> {
    if exists|k: int| 0 <= k < REQUIRED_KEYS && !table.contains_key(#[trigger] slot_terrain(k)) {
        Some(GeneratorError::NonExhaustiveContentDistribution)
    } else if table.contains_key(TileType::Teleport(true)) {
        Some(GeneratorError::ActiveTeleport)
    } else {
        keys_fault(table, rules, 0)
    }
}

/// The table has, for every terrain but the active teleport, a list that
/// covers the percentiles with contents that the terrain can hold, and has no
/// list for the active teleport.
pub open spec fn is_sound(table: ContentMap, rules: HoldRules) -> bool {
    &&& forall|k: int|
        0 <= k < REQUIRED_KEYS ==> {
            let tile = #[trigger] slot_terrain(k);
            &&& table.contains_key(tile)
            &&& covers_percentiles(table[tile])
            &&& all_held(tile, table[tile], rules)
        }
    &&& !table.contains_key(TileType::Teleport(true))
}

/// No list from slot `from` on is at fault exactly when each of them covers
/// the percentiles with contents that its terrain can hold.
pub proof fn lemma_keys_fault(table: ContentMap, rules: HoldRules, from: int)
    requires
        0 <= from <= REQUIRED_KEYS,
    ensures
        keys_fault(table, rules, from) is None <==> forall|k: int|
            from <= k < REQUIRED_KEYS ==> covers_percentiles(table[#[trigger] slot_terrain(k)])
                && all_held(slot_terrain(k), table[slot_terrain(k)], rules),
    decreases REQUIRED_KEYS - from,
{
    if from < REQUIRED_KEYS {
        lemma_keys_fault(table, rules, from + 1);
        lemma_content_fault(slot_terrain(from), table[slot_terrain(from)], rules);
        if keys_fault(table, rules, from) is None {
            assert forall|k: int| from <= k < REQUIRED_KEYS implies covers_percentiles(
                table[#[trigger] slot_terrain(k)],
            ) && all_held(slot_terrain(k), table[slot_terrain(k)], rules) by {
                if k > from {
                }
            }
        } else {
            if content_fault(slot_terrain(from), table[slot_terrain(from)], rules) is None {
                assert(keys_fault(table, rules, from + 1) is Some);
            } else {
                assert(slot_terrain(from) == slot_terrain(from));
            }
        }
    }
}

/// A content table is without fault exactly when it is sound.
pub proof fn lemma_table_fault(table: ContentMap, rules: HoldRules)
    ensures
        table_fault(table, rules) is None <==> is_sound(table, rules),
{
    lemma_keys_fault(table, rules, 0);
    if is_sound(table, rules) {
        assert forall|k: int| 0 <= k < REQUIRED_KEYS implies table.contains_key(
            #[trigger] slot_terrain(k),
        ) by {}
    }
}

impl View for ContentDist {
    type V = ContentMap;

    closed spec fn view(&self) -> ContentMap {
        Map::new(
            |t: TileType|
                terrain_slot(t) < self.tables@.len() && self.tables@[terrain_slot(t)] is Some,
            |t: TileType| self.tables@[terrain_slot(t)]->0@,
        )
    }
}

impl ContentDist {
    /// A table without lists.
    pub fn empty() -> (table: Self)
        ensures
            table@ == ContentMap::empty(),
    {
        let table = ContentDist { tables: Vec::new() };
        assert(table@ =~= ContentMap::empty());
        table
    }

    /// Gives the terrain `tile` the list `list`, in place of the one it had, if any.
    pub fn insert(&mut self, tile: TileType, list: Vec<(Range<usize>, Content)>)
        ensures
            final(self)@ == old(self)@.insert(tile, list@),
    {
        let slot = tile.slot();
        let ghost before = self.tables@;
        while self.tables.len() <= slot
            invariant
                before.len() <= self.tables@.len(),
                forall|i: int| 0 <= i < before.len() ==> #[trigger] self.tables@[i] == before[i],
                forall|i: int|
                    before.len() <= i < self.tables@.len() ==> #[trigger] self.tables@[i] is None,
            decreases slot + 1 - self.tables.len(),
        {
            self.tables.push(None);
        }
        let ghost widened = self.tables@;
        self.tables[slot] = Some(list);
        proof {
            assert(final(self)@ =~= old(self)@.insert(tile, list@)) by {
                assert forall|t: TileType|
                    final(self)@.contains_key(t) <==> old(self)@.insert(tile, list@).contains_key(
                        t,
                    ) by {
                    let i = terrain_slot(t);
                    if i != slot && i < widened.len() {
                        assert(self.tables@[i] == widened[i]);
                    }
                    if i < before.len() {
                        assert(widened[i] == before[i]);
                    }
                }
                assert forall|t: TileType| final(self)@.contains_key(t) implies final(self)@[t]
                    == old(self)@.insert(tile, list@)[t] by {
                    let i = terrain_slot(t);
                    if i != slot && i < widened.len() {
                        assert(self.tables@[i] == widened[i]);
                    }
                    if i < before.len() {
                        assert(widened[i] == before[i]);
                    }
                }
            }
        }
    }

    /// The table with the lists given, each terrain with the last list given for it.
    pub fn new(dist: Vec<(TileType, Vec<(Range<usize>, Content)>)>) -> (table: Self)
        ensures
            table@ == table_of(dist@),
    {
        let mut dist = dist;
        let ghost given = dist@;
        let mut table = Self::empty();
        let mut kept: Vec<(TileType, Vec<(Range<usize>, Content)>)> = Vec::new();
        while dist.len() > 0
            invariant
                dist@.len() + kept@.len() == given.len(),
                forall|i: int| 0 <= i < dist@.len() ==> #[trigger] dist@[i] == given[i],
                forall|i: int|
                    0 <= i < kept@.len() ==> #[trigger] kept@[i] == given[given.len() - 1 - i],
            decreases dist.len(),
        {
            let entry = dist.pop().unwrap();
            kept.push(entry);
        }
        proof {
            assert(given.take(0) =~= Seq::empty());
        }
        while kept.len() > 0
            invariant
                kept@.len() <= given.len(),
                forall|i: int|
                    0 <= i < kept@.len() ==> #[trigger] kept@[i] == given[given.len() - 1 - i],
                table@ == table_of(given.take(given.len() - kept@.len())),
            decreases kept.len(),
        {
            let ghost done = given.len() - kept@.len();
            let (tile, list) = kept.pop().unwrap();
            proof {
                let upto = given.take(done + 1);
                assert(upto.drop_last() =~= given.take(done));
                assert(upto.last() == given[done]);
            }
            table.insert(tile, list);
        }
        proof {
            assert(given.take(given.len() as int) =~= given);
        }
        table
    }

    /// The content that the terrain `tile` gets for the roll `value`; nothing
    /// if the table has no list for the terrain or the list is empty.
    pub fn get_content(&self, tile: TileType, value: usize) -> (out: Content)
        ensures
            out == (if self@.contains_key(tile) {
                lookup(self@[tile], value, Content::Empty)
            } else {
                Content::Empty
            }),
    {
        let slot = tile.slot();
        if slot >= self.tables.len() {
            return Content::Empty;
        }
        match &self.tables[slot] {
            Some(list) => pick(list, value, Content::Empty),
            None => Content::Empty,
        }
    }

    /// Checks the table: reports what `table_fault` finds.
    pub fn is_valid(&self, rules: &HoldRules) -> (out: Result<(), GeneratorError>)
        ensures
            match out {
                Ok(()) => table_fault(self@, *rules) is None,
                Err(e) => table_fault(self@, *rules) == Some(e),
            },
    {
        let mut k: usize = 0;
        while k < REQUIRED_KEYS
            invariant
                k <= REQUIRED_KEYS,
                forall|i: int| 0 <= i < k ==> self@.contains_key(#[trigger] slot_terrain(i)),
            decreases REQUIRED_KEYS - k,
        {
            let present = k < self.tables.len() && self.tables[k].is_some();
            if !present {
                proof {
                    assert(!self@.contains_key(slot_terrain(k as int)));
                }
                return Err(GeneratorError::NonExhaustiveContentDistribution);
            }
            proof {
                assert(self@.contains_key(slot_terrain(k as int)));
            }
            k += 1;
        }
        if REQUIRED_KEYS < self.tables.len() && self.tables[REQUIRED_KEYS].is_some() {
            proof {
                assert(self@.contains_key(TileType::Teleport(true)));
            }
            return Err(GeneratorError::ActiveTeleport);
        }
        proof {
            assert(!self@.contains_key(TileType::Teleport(true)));
        }
        let mut k: usize = 0;
        while k < REQUIRED_KEYS
            invariant
                k <= REQUIRED_KEYS,
                forall|i: int|
                    0 <= i < REQUIRED_KEYS ==> self@.contains_key(#[trigger] slot_terrain(i)),
                !self@.contains_key(TileType::Teleport(true)),
                keys_fault(self@, *rules, 0) == keys_fault(self@, *rules, k as int),
            decreases REQUIRED_KEYS - k,
        {
            let tile = TileType::from_slot(k);
            proof {
                assert(self@.contains_key(slot_terrain(k as int)));
            }
            match &self.tables[k] {
                Some(list) => {
                    proof {
                        assert(terrain_slot(tile) == k);
                        assert(self@[tile] == list@);
                    }
                    match check_contents(tile, list, rules) {
                        Ok(()) => {},
                        Err(e) => {
                            proof {
                                assert(keys_fault(self@, *rules, k as int) == Some(e));
                                assert(!self@.contains_key(TileType::Teleport(true)));
                            }
                            return Err(e);
                        },
                    }
                },
                None => {},
            }
            k += 1;
        }
        Ok(())
    }
}

/// The table that a list of terrains with their lists makes: each terrain has
/// the last list given for it.
pub open spec fn table_of(dist: Seq<(TileType, Vec<(Range<usize>, Content)>)>) -> ContentMap
    decreases dist.len(),
{
    if dist.len() == 0 {
        Map::empty()
    } else {
        table_of(dist.drop_last()).insert(dist.last().0, dist.last().1@)
    }
}

/// The range from `start` up to, not including, `end`.
pub open spec fn span(start: usize, end: usize) -> Range<usize> {
    Range { start, end }
}

/// The list that the default content table has for a terrain.
pub open spec fn default_contents(tile: TileType) -> Seq<(Range<usize>, Content)> {
    match tile {
        TileType::DeepWater => seq![
            (span(0, 90), Content::Water(10)),
            (span(90, 100), Content::Fish(10)),
        ],
        TileType::ShallowWater => seq![
            (span(0, 90), Content::Water(5)),
            (span(90, 100), Content::Fish(2)),
        ],
        TileType::Sand => seq![
            (span(0, 60), Content::Empty),
            (span(60, 70), Content::Coin(3)),
            (span(70, 80), Content::Rock(1)),
            (span(80, 90), Content::Garbage(2)),
            (span(90, 95), Content::Bin(0, 10)),
            (span(95, 100), Content::Scarecrow),
        ],
        TileType::Grass => seq![
            (span(0, 50), Content::Empty),
            (span(50, 70), Content::Tree(1)),
            (span(70, 73), Content::Garbage(1)),
            (span(73, 76), Content::Bin(0, 9)),
            (span(76, 78), Content::Fire),
            (span(78, 80), Content::Coin(3)),
            (span(80, 85), Content::Bush(1)),
            (span(85, 90), Content::Rock(2)),
            (span(90, 92), Content::Bank(0, 100)),
            (span(92, 95), Content::Crate(0, 5)),
            (span(95, 100), Content::Building),
        ],
        TileType::Street => seq![
            (span(0, 80), Content::Empty),
            (span(80, 85), Content::Coin(2)),
            (span(85, 90), Content::Garbage(1)),
            (span(90, 100), Content::Rock(1)),
        ],
        TileType::Hill => seq![
            (span(0, 60), Content::Empty),
            (span(60, 65), Content::Tree(1)),
            (span(65, 70), Content::Garbage(2)),
            (span(70, 80), Content::Bin(0, 5)),
            (span(80, 85), Content::Scarecrow),
            (span(85, 95), Content::Coin(10)),
            (span(95, 100), Content::Crate(0, 5)),
        ],
        TileType::Mountain => seq![
            (span(0, 60), Content::Empty),
            (span(60, 80), Content::Rock(4)),
            (span(80, 85), Content::Coin(5)),
            (span(85, 90), Content::Crate(0, 5)),
            (span(90, 100), Content::Tree(1)),
        ],
        TileType::Snow => seq![
            (span(0, 90), Content::Empty),
            (span(90, 95), Content::Coin(1)),
            (span(95, 100), Content::Rock(3)),
        ],
        TileType::Lava => seq![
            (span(0, 100), Content::Empty),
        ],
        TileType::Teleport(false) => seq![
            (span(0, 100), Content::Empty),
        ],
        TileType::Wall => seq![
            (span(0, 100), Content::Empty),
        ],
        TileType::Teleport(true) => Seq::empty(),
    }
}

/// The default content table: a list for every terrain but the active teleport.
pub open spec fn default_table() -> ContentMap {
    Map::new(|t: TileType| t != TileType::Teleport(true), |t: TileType| default_contents(t))
}

/// The list that the default content table has for a terrain.
pub fn default_list(tile: TileType) -> (list: Vec<(Range<usize>, Content)>)
    ensures
        list@ =~= default_contents(tile),
{
    let mut list: Vec<(Range<usize>, Content)> = Vec::new();
    match tile {
        TileType::DeepWater => {
            list.push((0..90, Content::Water(10)));
            list.push((90..100, Content::Fish(10)));
        },
        TileType::ShallowWater => {
            list.push((0..90, Content::Water(5)));
            list.push((90..100, Content::Fish(2)));
        },
        TileType::Sand => {
            list.push((0..60, Content::Empty));
            list.push((60..70, Content::Coin(3)));
            list.push((70..80, Content::Rock(1)));
            list.push((80..90, Content::Garbage(2)));
            list.push((90..95, Content::Bin(0, 10)));
            list.push((95..100, Content::Scarecrow));
        },
        TileType::Grass => {
            list.push((0..50, Content::Empty));
            list.push((50..70, Content::Tree(1)));
            list.push((70..73, Content::Garbage(1)));
            list.push((73..76, Content::Bin(0, 9)));
            list.push((76..78, Content::Fire));
            list.push((78..80, Content::Coin(3)));
            list.push((80..85, Content::Bush(1)));
            list.push((85..90, Content::Rock(2)));
            list.push((90..92, Content::Bank(0, 100)));
            list.push((92..95, Content::Crate(0, 5)));
            list.push((95..100, Content::Building));
        },
        TileType::Street => {
            list.push((0..80, Content::Empty));
            list.push((80..85, Content::Coin(2)));
            list.push((85..90, Content::Garbage(1)));
            list.push((90..100, Content::Rock(1)));
        },
        TileType::Hill => {
            list.push((0..60, Content::Empty));
            list.push((60..65, Content::Tree(1)));
            list.push((65..70, Content::Garbage(2)));
            list.push((70..80, Content::Bin(0, 5)));
            list.push((80..85, Content::Scarecrow));
            list.push((85..95, Content::Coin(10)));
            list.push((95..100, Content::Crate(0, 5)));
        },
        TileType::Mountain => {
            list.push((0..60, Content::Empty));
            list.push((60..80, Content::Rock(4)));
            list.push((80..85, Content::Coin(5)));
            list.push((85..90, Content::Crate(0, 5)));
            list.push((90..100, Content::Tree(1)));
        },
        TileType::Snow => {
            list.push((0..90, Content::Empty));
            list.push((90..95, Content::Coin(1)));
            list.push((95..100, Content::Rock(3)));
        },
        TileType::Lava => {
            list.push((0..100, Content::Empty));
        },
        TileType::Teleport(false) => {
            list.push((0..100, Content::Empty));
        },
        TileType::Wall => {
            list.push((0..100, Content::Empty));
        },
        TileType::Teleport(true) => {},
    }
    list
}

/// Every list of the default content table covers the percentiles.
pub proof fn lemma_default_lists_cover(tile: TileType)
    requires
        tile != TileType::Teleport(true),
    ensures
        covers_percentiles(default_contents(tile)),
{
}

/// Under rules by which each terrain can hold what the default content table
/// offers for it, the default content table is sound.
pub proof fn lemma_default_is_sound(rules: HoldRules)
    requires
        forall|k: int|
            0 <= k < REQUIRED_KEYS ==> all_held(
                #[trigger] slot_terrain(k),
                default_contents(slot_terrain(k)),
                rules,
            ),
    ensures
        is_sound(default_table(), rules),
        table_fault(default_table(), rules) is None,
{
    assert forall|k: int| 0 <= k < REQUIRED_KEYS implies {
        let tile = #[trigger] slot_terrain(k);
        &&& default_table().contains_key(tile)
        &&& covers_percentiles(default_table()[tile])
        &&& all_held(tile, default_table()[tile], rules)
    } by {
        lemma_default_lists_cover(slot_terrain(k));
    }
    lemma_table_fault(default_table(), rules);
}

impl Default for ContentDist {
    fn default() -> (table: Self)
        ensures
            table@ == default_table(),
    {
        let mut table = Self::empty();
        let mut k: usize = 0;
        while k < REQUIRED_KEYS
            invariant
                k <= REQUIRED_KEYS,
                table@ =~= Map::new(
                    |t: TileType| terrain_slot(t) < k,
                    |t: TileType| default_contents(t),
                ),
            decreases REQUIRED_KEYS - k,
        {
            let tile = TileType::from_slot(k);
            table.insert(tile, default_list(tile));
            k += 1;
        }
        proof {
            assert(table@ =~= default_table());
        }
        table
    }
}

/// The provisional cell for an elevation percentile under a table that gives
/// each range of percentiles a choice of terrains: its category is the index
/// of the first range that holds the percentile, or of the last range if none
/// does, and its elevation is the percentile.
pub fn noise_to_pretile(noise_distribution: &Vec<(Range<usize>, Vec<TileType>)>, z: usize) -> (tile:
    PreTile)
    requires
        noise_distribution@.len() > 0,
    ensures
        tile.elevation == z,
        tile.pre_tiletype == PreTileType::Zone(
            if first_hit(noise_distribution@, z, 0) < noise_distribution@.len() {
                first_hit(noise_distribution@, z, 0) as usize
            } else {
                (noise_distribution@.len() - 1) as usize
            },
        ),
{
    let mut counter: usize = 0;
    while counter < noise_distribution.len()
        invariant
            counter <= noise_distribution.len(),
            first_hit(noise_distribution@, z, 0) == first_hit(
                noise_distribution@,
                z,
                counter as int,
            ),
        decreases noise_distribution.len() - counter,
    {
        if noise_distribution[counter].0.start <= z && z < noise_distribution[counter].0.end {
            return PreTile::new(counter, z);
        }
        counter += 1;
    }
    PreTile::new(noise_distribution.len() - 1, z)
}

/// The terrain of a region of category `id` under a table that gives each
/// category a choice of terrains: the one terrain if there is one, else one of
/// the choice as the generator picks it, shallow water if there is no choice.
pub fn zone_to_tiletype_dispatcher(
    noise_distribution: &Vec<(Range<usize>, Vec<TileType>)>,
    id: usize,
    rng: &mut StdRng,
) -> (terrain: TileType)
    requires
        id < noise_distribution@.len(),
    ensures
        noise_distribution@[id as int].1@.len() == 0 ==> terrain == TileType::ShallowWater,
        noise_distribution@[id as int].1@.len() > 0 ==> noise_distribution@[id as int].1@.contains(
            terrain,
        ),
        noise_distribution@[id as int].1@.len() == 1 ==> terrain
            == noise_distribution@[id as int].1@[0],
{
    let dist = &noise_distribution[id].1;
    if dist.len() == 1 {
        return dist[0];
    }
    match choose_one(dist, rng) {
        Some(tile_type) => tile_type,
        None => TileType::ShallowWater,
    }
}

} // verus!
