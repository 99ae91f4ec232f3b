//! Sliding one line of tiles toward its first cell.
//!
//! A line is a row or a column, read from the edge the tiles move toward.
//! Sliding packs the tiles against that edge, merges equal neighbours in one
//! pass from the edge outward, and fills the rest of the line with free
//! cells.

use crate::seq_facts::{
    lemma_filter_all, lemma_filter_drops, lemma_filter_take_ends, lemma_filter_take_step,
};
use crate::tile::{is_tile, lemma_double_tile, lemma_tile_fits, TILE_MAX};
use vstd::prelude::*;

verus! {

/// The predicate that holds of a cell with a tile on it.
pub open spec fn occupied() -> spec_fn(nat) -> bool {
    |value: nat| value != 0
}

/// The tiles of a line in their order, free cells left out.
pub open spec fn compact(line: Seq<nat>) -> Seq<nat> {
    line.filter(occupied())
}

/// One merging pass over packed tiles, from the first outward: a tile equal
/// to its successor becomes one tile of twice the value and the pass goes on
/// behind the pair, so a merged tile never merges again.
pub open spec fn merge(tiles: Seq<nat>) -> Seq<nat>
    decreases tiles.len(),
{
    if tiles.len() < 2 {
        tiles
    } else if tiles[0] == tiles[1] {
        seq![2 * tiles[0]] + merge(tiles.skip(2))
    } else {
        seq![tiles[0]] + merge(tiles.skip(1))
    }
}

/// The score earned by `merge`: the sum of the tiles it creates.
pub open spec fn merge_gain(tiles: Seq<nat>) -> nat
    decreases tiles.len(),
{
    if tiles.len() < 2 {
        0
    } else if tiles[0] == tiles[1] {
        2 * tiles[0] + merge_gain(tiles.skip(2))
    } else {
        merge_gain(tiles.skip(1))
    }
}

/// `tiles` followed by free cells up to length `len`.
pub open spec fn pad(tiles: Seq<nat>, len: nat) -> Seq<nat> {
    Seq::new(
        len,
        |i: int|
            if i < tiles.len() {
                tiles[i]
            } else {
                0nat
            },
    )
}

/// The line after its tiles slid toward index 0.
pub open spec fn slide(line: Seq<nat>) -> Seq<nat> {
    pad(merge(compact(line)), line.len())
}

/// The score earned by sliding the line toward index 0.
pub open spec fn gain(line: Seq<nat>) -> nat {
    merge_gain(compact(line))
}

/// The line after its tiles slid toward its last index (`toward_end`) or its
/// first.
pub open spec fn slide_toward(line: Seq<nat>, toward_end: bool) -> Seq<nat> {
    if toward_end {
        slide(line.reverse()).reverse()
    } else {
        slide(line)
    }
}

/// The score earned by `slide_toward`.
pub open spec fn gain_toward(line: Seq<nat>, toward_end: bool) -> nat {
    if toward_end {
        gain(line.reverse())
    } else {
        gain(line)
    }
}

/// The cell values of a stored line as natural numbers.
pub open spec fn tiles_of(cells: Seq<u32>) -> Seq<nat> {
    cells.map_values(|value: u32| value as nat)
}

/// Every cell of the line is free or a power of two from 2 up.
pub open spec fn tiles_only(line: Seq<nat>) -> bool {
    forall|i: int| 0 <= i < line.len() ==> is_tile(#[trigger] line[i])
}

/// Every cell of the line holds a tile.
pub open spec fn full(line: Seq<nat>) -> bool {
    forall|i: int| 0 <= i < line.len() ==> #[trigger] line[i] != 0
}

/// No cell of the line equals the next one.
pub open spec fn no_equal_neighbours(line: Seq<nat>) -> bool {
    forall|i: int| 0 <= i < line.len() - 1 ==> #[trigger] line[i] != line[i + 1]
}

/// Every tile of the line stands before every free cell.
pub open spec fn packed(line: Seq<nat>) -> bool {
    forall|i: int, j: int| 0 <= i < j < line.len() && #[trigger] line[i] == 0 ==> #[trigger] line[j] == 0
}

/// A copy of the line in the opposite order.
pub fn reversed(line: &Vec<u32>) -> (back: Vec<u32>)
    ensures
        back@ == line@.reverse(),
{
    let n = line.len();
    let mut back: Vec<u32> = Vec::new();
    let mut i: usize = 0;
    while i < n
        invariant
            n == line.len(),
            i <= n,
            back.len() == i,
            forall|k: int| 0 <= k < i ==> back[k] == line[n - 1 - k],
        decreases n - i,
    {
        back.push(line[n - 1 - i]);
        i = i + 1;
    }
    assert(back@ =~= line@.reverse());
    back
}

/// Slides the tiles of a line toward index 0 and returns the new line with
/// the score earned.
///
/// Every cell must be below `TILE_MAX`, so that a merged tile fits a cell,
/// and the line must have fewer than 2^32 cells, so that the score fits 64
/// bits.
pub fn slide_forward(line: &Vec<u32>) -> (out: (Vec<u32>, u64))
    requires
        line.len() <= u32::MAX,
        forall|i: int| 0 <= i < line.len() ==> line[i] < TILE_MAX,
    ensures
        out.0.len() == line.len(),
        tiles_of(out.0@) == slide(tiles_of(line@)),
        out.1 == gain(tiles_of(line@)),
        out.1 <= line.len() * TILE_MAX,
{
    let n = line.len();
    let ghost cells = tiles_of(line@);
    let mut packed: Vec<u32> = Vec::new();
    let mut i: usize = 0;
    proof {
        lemma_filter_take_ends(cells, occupied());
    }
    while i < n
        invariant
            n == line.len(),
            cells == tiles_of(line@),
            i <= n,
            packed.len() <= i,
            tiles_of(packed@) == compact(cells.take(i as int)),
            forall|k: int| 0 <= k < line.len() ==> line[k] < TILE_MAX,
            forall|k: int| 0 <= k < packed.len() ==> packed[k] < TILE_MAX,
        decreases n - i,
    {
        let value = line[i];
        proof {
            lemma_filter_take_step(cells, occupied(), i as int);
        }
        if value != 0 {
            packed.push(value);
            assert(tiles_of(packed@) =~= compact(cells.take(i as int)).push(value as nat));
        }
        i = i + 1;
    }
    let ghost tiles = tiles_of(packed@);
    let m = packed.len();
    let mut merged: Vec<u32> = Vec::new();
    let mut earned: u64 = 0;
    let mut j: usize = 0;
    assert(tiles.skip(0) =~= tiles);
    while j < m
        invariant
            m == packed.len(),
            m <= n <= u32::MAX,
            tiles == tiles_of(packed@),
            j <= m,
            merged.len() <= j,
            earned <= j * TILE_MAX,
            tiles_of(merged@) + merge(tiles.skip(j as int)) == merge(tiles),
            earned + merge_gain(tiles.skip(j as int)) == merge_gain(tiles),
            forall|k: int| 0 <= k < packed.len() ==> packed[k] < TILE_MAX,
        decreases m - j,
    {
        let ghost before = tiles_of(merged@);
        let value = packed[j];
        proof {
            lemma_merge_step(tiles, j as int);
        }
        if j + 1 < m && packed[j + 1] == value {
            let doubled = value * 2;
            merged.push(doubled);
            earned = earned + doubled as u64;
            assert(tiles_of(merged@) =~= before + seq![2 * tiles[j as int]]);
            assert(tiles_of(merged@) + merge(tiles.skip(j + 2)) =~= before + (seq![
                2 * tiles[j as int],
            ] + merge(tiles.skip(j + 2))));
            j = j + 2;
        } else {
            merged.push(value);
            assert(tiles_of(merged@) =~= before + seq![tiles[j as int]]);
            assert(tiles_of(merged@) + merge(tiles.skip(j + 1)) =~= before + (seq![tiles[j as int]]
                + merge(tiles.skip(j + 1))));
            j = j + 1;
        }
    }
    assert(tiles.skip(m as int) =~= Seq::<nat>::empty());
    assert(tiles_of(merged@) =~= merge(tiles));
    let ghost kept = merged@;
    while merged.len() < n
        invariant
            n == line.len(),
            kept.len() <= merged.len() <= n,
            forall|k: int| 0 <= k < kept.len() ==> merged[k] == kept[k],
            forall|k: int| kept.len() <= k < merged.len() ==> merged[k] == 0,
        decreases n - merged.len(),
    {
        merged.push(0);
    }
    assert(tiles_of(merged@) =~= pad(tiles_of(kept), n as nat));
    (merged, earned)
}

/// Slides the tiles of a line toward its last index (`toward_end`) or its
/// first, and returns the new line with the score earned. The limits on the
/// line are those of `slide_forward`.
pub fn slide_line(line: &Vec<u32>, toward_end: bool) -> (out: (Vec<u32>, u64))
    requires
        line.len() <= u32::MAX,
        forall|i: int| 0 <= i < line.len() ==> line[i] < TILE_MAX,
    ensures
        out.0.len() == line.len(),
        tiles_of(out.0@) == slide_toward(tiles_of(line@), toward_end),
        out.1 == gain_toward(tiles_of(line@), toward_end),
        out.1 <= line.len() * TILE_MAX,
{
    if toward_end {
        let back = reversed(line);
        assert(tiles_of(back@) =~= tiles_of(line@).reverse());
        let (slid, earned) = slide_forward(&back);
        let out = reversed(&slid);
        assert(tiles_of(out@) =~= tiles_of(slid@).reverse());
        (out, earned)
    } else {
        slide_forward(line)
    }
}

/// What the merging pass does at position `i` of packed tiles.
pub proof fn lemma_merge_step(tiles: Seq<nat>, i: int)
    requires
        0 <= i < tiles.len(),
    ensures
        i + 1 < tiles.len() && tiles[i] == tiles[i + 1] ==> {
            &&& merge(tiles.skip(i)) == seq![2 * tiles[i]] + merge(tiles.skip(i + 2))
            &&& merge_gain(tiles.skip(i)) == 2 * tiles[i] + merge_gain(tiles.skip(i + 2))
        },
        !(i + 1 < tiles.len() && tiles[i] == tiles[i + 1]) ==> {
            &&& merge(tiles.skip(i)) == seq![tiles[i]] + merge(tiles.skip(i + 1))
            &&& merge_gain(tiles.skip(i)) == merge_gain(tiles.skip(i + 1))
        },
{
    let rest = tiles.skip(i);
    assert(rest.skip(1) =~= tiles.skip(i + 1));
    if i + 1 < tiles.len() {
        assert(rest.skip(2) =~= tiles.skip(i + 2));
    } else {
        assert(rest =~= seq![tiles[i]]);
        assert(merge(tiles.skip(i + 1)) =~= Seq::<nat>::empty());
        assert(seq![tiles[i]] + Seq::<nat>::empty() =~= seq![tiles[i]]);
    }
}

/// Packing keeps tiles and drops every free cell, and the packed line is no
/// longer than the line.
pub proof fn lemma_compact_tiles(line: Seq<nat>)
    ensures
        full(compact(line)),
        compact(line).len() <= line.len(),
        tiles_only(line) ==> tiles_only(compact(line)),
{
    let packed = compact(line);
    line.lemma_filter_len(occupied());
    assert forall|i: int| 0 <= i < packed.len() implies #[trigger] packed[i] != 0 && (tiles_only(line)
        ==> is_tile(packed[i])) by {
        line.lemma_filter_pred(occupied(), i);
        assert(packed.contains(packed[i]));
        line.lemma_filter_contains_rev(occupied(), packed[i]);
    }
}

/// Merging keeps a packed line packed and its tiles valid, and never makes
/// it longer.
pub proof fn lemma_merge_tiles(tiles: Seq<nat>)
    requires
        full(tiles),
    ensures
        full(merge(tiles)),
        merge(tiles).len() <= tiles.len(),
        tiles_only(tiles) ==> tiles_only(merge(tiles)),
    decreases tiles.len(),
{
    if tiles.len() >= 2 {
        if tiles[0] == tiles[1] {
            let rest = tiles.skip(2);
            lemma_merge_tiles(rest);
            if tiles_only(tiles) {
                lemma_double_tile(tiles[0]);
                assert forall|i: int| 0 <= i < rest.len() implies is_tile(#[trigger] rest[i]) by {
                    assert(rest[i] == tiles[i + 2]);
                }
            }
        } else {
            let rest = tiles.skip(1);
            lemma_merge_tiles(rest);
            if tiles_only(tiles) {
                assert forall|i: int| 0 <= i < rest.len() implies is_tile(#[trigger] rest[i]) by {
                    assert(rest[i] == tiles[i + 1]);
                }
            }
        }
    }
}

/// Sliding keeps the length of a line, and keeps its cells valid.
pub proof fn lemma_slide_tiles(line: Seq<nat>, toward_end: bool)
    ensures
        slide_toward(line, toward_end).len() == line.len(),
        tiles_only(line) ==> tiles_only(slide_toward(line, toward_end)),
{
    let source = if toward_end {
        line.reverse()
    } else {
        line
    };
    lemma_compact_tiles(source);
    lemma_merge_tiles(compact(source));
    if tiles_only(line) {
        assert(tiles_only(source));
        assert(tiles_only(slide(source)));
    }
}

/// The merging pass at most doubles a tile.
pub proof fn lemma_merge_below(tiles: Seq<nat>, limit: nat)
    requires
        forall|i: int| 0 <= i < tiles.len() ==> #[trigger] tiles[i] < limit,
    ensures
        forall|i: int| 0 <= i < merge(tiles).len() ==> #[trigger] merge(tiles)[i] < 2 * limit,
    decreases tiles.len(),
{
    if tiles.len() >= 2 {
        let rest = if tiles[0] == tiles[1] {
            tiles.skip(2)
        } else {
            tiles.skip(1)
        };
        assert forall|i: int| 0 <= i < rest.len() implies #[trigger] rest[i] < limit by {
            assert(rest[i] == tiles[i + (tiles.len() - rest.len())]);
        }
        lemma_merge_below(rest, limit);
        assert(tiles[0] < limit);
        assert forall|i: int| 0 <= i < merge(tiles).len() implies #[trigger] merge(tiles)[i] < 2
            * limit by {
            if i > 0 {
                assert(merge(tiles)[i] == merge(rest)[i - 1]);
            }
        }
    } else {
        assert forall|i: int| 0 <= i < merge(tiles).len() implies #[trigger] merge(tiles)[i] < 2
            * limit by {
            assert(tiles[i] < limit);
        }
    }
}

/// A line of tiles below `TILE_MAX` slides to a line of tiles that a cell
/// can hold.
pub proof fn lemma_slide_fits(line: Seq<nat>, toward_end: bool)
    requires
        tiles_only(line),
        forall|i: int| 0 <= i < line.len() ==> #[trigger] line[i] < TILE_MAX,
    ensures
        forall|i: int|
            0 <= i < line.len() ==> #[trigger] slide_toward(line, toward_end)[i] <= TILE_MAX,
{
    let source = if toward_end {
        line.reverse()
    } else {
        line
    };
    let packed = compact(source);
    lemma_slide_tiles(line, toward_end);
    lemma_compact_tiles(source);
    assert forall|i: int| 0 <= i < packed.len() implies #[trigger] packed[i] < TILE_MAX by {
        assert(packed.contains(packed[i]));
        source.lemma_filter_contains_rev(occupied(), packed[i]);
        let k = choose|k: int| 0 <= k < source.len() && source[k] == packed[i];
        if toward_end {
            assert(line[line.len() - 1 - k] < TILE_MAX);
        }
    }
    lemma_merge_below(packed, TILE_MAX as nat);
    assert forall|i: int| 0 <= i < line.len() implies #[trigger] slide_toward(line, toward_end)[i]
        <= TILE_MAX by {
        let slid = slide_toward(line, toward_end);
        let k = if toward_end {
            line.len() - 1 - i
        } else {
            i
        };
        assert(slid[i] == slide(source)[k]);
        assert(slide(source)[k] < 2 * TILE_MAX);
        lemma_tile_fits(slid[i]);
    }
}

/// The merging pass leaves tiles without equal neighbours alone.
pub proof fn lemma_merge_nothing(tiles: Seq<nat>)
    requires
        no_equal_neighbours(tiles),
    ensures
        merge(tiles) == tiles,
        merge_gain(tiles) == 0,
    decreases tiles.len(),
{
    if tiles.len() >= 2 {
        let rest = tiles.skip(1);
        assert(tiles[0int] != tiles[0int + 1]);
        assert forall|i: int| 0 <= i < rest.len() - 1 implies #[trigger] rest[i] != rest[i + 1] by {
            assert(tiles[i + 1] != tiles[i + 1 + 1]);
        }
        lemma_merge_nothing(rest);
        assert(seq![tiles[0]] + rest =~= tiles);
    }
}

/// The merging pass shortens the line by one for every pair it merges: a
/// line that keeps its length had no equal neighbours.
pub proof fn lemma_merge_keeps_len(tiles: Seq<nat>)
    ensures
        merge(tiles).len() <= tiles.len(),
        merge(tiles).len() == tiles.len() ==> no_equal_neighbours(tiles),
    decreases tiles.len(),
{
    if tiles.len() >= 2 {
        if tiles[0] == tiles[1] {
            lemma_merge_keeps_len(tiles.skip(2));
        } else {
            let rest = tiles.skip(1);
            lemma_merge_keeps_len(rest);
            if merge(tiles).len() == tiles.len() {
                assert forall|i: int| 0 <= i < tiles.len() - 1 implies #[trigger] tiles[i] != tiles[i
                    + 1] by {
                    if i > 0 {
                        assert(rest[i - 1] != rest[i - 1 + 1]);
                    }
                }
            }
        }
    }
}

/// A line that is full, with no two equal neighbours, slides to itself in
/// either direction and earns nothing.
pub proof fn lemma_slide_nothing(line: Seq<nat>, toward_end: bool)
    requires
        full(line),
        no_equal_neighbours(line),
    ensures
        slide_toward(line, toward_end) == line,
        gain_toward(line, toward_end) == 0,
{
    let source = if toward_end {
        line.reverse()
    } else {
        line
    };
    assert forall|i: int| 0 <= i < source.len() - 1 implies #[trigger] source[i] != source[i + 1] by {
        if toward_end {
            let k = line.len() - 2 - i;
            assert(line[k] != line[k + 1]);
        }
    }
    assert forall|i: int| 0 <= i < source.len() implies occupied()(#[trigger] source[i]) by {
        if toward_end {
            assert(line[line.len() - 1 - i] != 0);
        }
    }
    lemma_filter_all(source, occupied());
    lemma_merge_nothing(source);
    assert(slide(source) =~= source);
    if toward_end {
        assert(source.reverse() =~= line);
    }
}

/// A line that slides to itself toward its first cell has its tiles before
/// its free cells, and no two of its tiles that are neighbours are equal.
pub proof fn lemma_slide_fixed(line: Seq<nat>)
    requires
        slide(line) == line,
    ensures
        packed(line),
        full(line) ==> no_equal_neighbours(line),
{
    let tiles = merge(compact(line));
    lemma_compact_tiles(line);
    lemma_merge_tiles(compact(line));
    assert forall|i: int, j: int|
        0 <= i < j < line.len() && #[trigger] line[i] == 0 implies #[trigger] line[j] == 0 by {
        assert(slide(line)[i] == 0);
        assert(slide(line)[j] == 0);
    }
    if full(line) {
        assert(tiles.len() >= line.len()) by {
            if tiles.len() < line.len() {
                assert(slide(line)[tiles.len() as int] == 0);
            }
        }
        assert forall|i: int| 0 <= i < line.len() implies occupied()(#[trigger] line[i]) by {}
        lemma_filter_all(line, occupied());
        lemma_merge_keeps_len(line);
    }
}

/// A line that changes when it slides has a free cell afterwards.
pub proof fn lemma_slide_leaves_room(line: Seq<nat>, toward_end: bool)
    requires
        slide_toward(line, toward_end) != line,
    ensures
        !full(slide_toward(line, toward_end)),
{
    let source = if toward_end {
        line.reverse()
    } else {
        line
    };
    let slid = slide(source);
    if full(slide_toward(line, toward_end)) {
        assert forall|i: int| 0 <= i < slid.len() implies #[trigger] slid[i] != 0 by {
            if toward_end {
                assert(slid.reverse()[slid.len() - 1 - i] != 0);
            }
        }
        let tiles = merge(compact(source));
        lemma_compact_tiles(source);
        lemma_merge_keeps_len(compact(source));
        assert(tiles.len() >= source.len()) by {
            if tiles.len() < source.len() {
                assert(slid[tiles.len() as int] == 0);
            }
        }
        assert forall|i: int| 0 <= i < source.len() implies occupied()(#[trigger] source[i]) by {
            if !occupied()(source[i]) {
                source.lemma_filter_len(occupied());
                lemma_filter_drops(source, occupied(), i);
            }
        }
        lemma_filter_all(source, occupied());
        lemma_merge_nothing(source);
        assert(slid =~= source);
        if toward_end {
            assert(source.reverse() =~= line);
        }
    }
}

} // verus!
