//! Tiles, nearest-tile matching with duplicate avoidance, and the traversal
//! that composes the mosaic.
use crate::features::{
    is_uniform, lemma_uniform_distance, arity_of, cell_values, crop, distance, distance_exec, distance_prefix, feature_map,
    is_feature_map_of, ColorSpace, FeatureMap,
};
use crate::grid::{lemma_cell_at_in_grid, Cell, Grid, GridError};
use crate::raster::{lanczos3_resized, pasted, Image};
use rayon::prelude::{IntoParallelRefIterator, ParallelIterator, IndexedParallelIterator};
use std::collections::BTreeSet;
use vstd::prelude::*;

verus! {

broadcast use vstd::std_specs::btree::group_btree_axioms, vstd::laws_cmp::group_laws_cmp;

/// A library image resized to the block size, with its feature map.
#[derive(Clone, Debug)]
pub struct Tile {
    pub image: Image,
    pub features: FeatureMap,
}

/// `i` may be picked: duplicates are allowed, or `i` has not been used.
pub open spec fn eligible(used: Set<usize>, avoid: bool, i: int) -> bool {
    !avoid || !used.contains(i as usize)
}

/// `k` has the least score of the eligible indices, and no eligible index
/// before it has the same score.
pub open spec fn is_best(scores: Seq<u128>, used: Set<usize>, avoid: bool, k: int) -> bool {
    &&& 0 <= k < scores.len()
    &&& eligible(used, avoid, k)
    &&& forall|j: int|
        0 <= j < scores.len() && eligible(used, avoid, j) ==> scores[k] <= #[trigger] scores[j]
    &&& forall|j: int| 0 <= j < k && eligible(used, avoid, j) ==> scores[k] < #[trigger] scores[j]
}

/// The used set as the search for a cell sees it: emptied once every tile
/// of the library has been used.
pub open spec fn after_reset(used: Set<usize>, n: nat, avoid: bool) -> Set<usize> {
    if avoid && used.len() == n {
        Set::empty()
    } else {
        used
    }
}

/// The used set after `pick` has been placed.
pub open spec fn after_pick(used: Set<usize>, n: nat, avoid: bool, pick: usize) -> Set<usize> {
    if avoid {
        after_reset(used, n, avoid).insert(pick)
    } else {
        used
    }
}

/// A set of indices of a library of `n` tiles.
pub open spec fn indices_below(used: Set<usize>, n: nat) -> bool {
    &&& used.finite()
    &&& forall|i: usize| used.contains(i) ==> i < n
}

/// The index with the least score among those that may be picked; on equal
/// scores the lowest index. `None` when no index may be picked.
pub fn select_best(scores: &Vec<u128>, used: &BTreeSet<usize>, avoid: bool) -> (r: Option<usize>)
    ensures
        r is None <==> forall|j: int| 0 <= j < scores@.len() ==> !eligible(used@, avoid, j),
        r is Some ==> is_best(scores@, used@, avoid, r->Some_0 as int),
{
    let mut best: Option<usize> = None;
    let mut i: usize = 0;
    while i < scores.len()
        invariant
            i <= scores@.len(),
            best is None <==> forall|j: int| 0 <= j < i ==> !eligible(used@, avoid, j),
            best is Some ==> {
                let k = best->Some_0 as int;
                &&& 0 <= k < i
                &&& eligible(used@, avoid, k)
                &&& forall|j: int|
                    0 <= j < i && eligible(used@, avoid, j) ==> scores@[k] <= #[trigger] scores@[j]
                &&& forall|j: int|
                    0 <= j < k && eligible(used@, avoid, j) ==> scores@[k] < #[trigger] scores@[j]
            },
        decreases scores@.len() - i,
    {
        let taken = used.contains(&i);
        assert(taken == used@.contains(i));
        if !avoid || !taken {
            match best {
                None => {
                    best = Some(i);
                },
                Some(k) => {
                    if scores[i] < scores[k] {
                        best = Some(i);
                    }
                },
            }
        }
        proof {
            if best is None {
                assert forall|j: int| 0 <= j < i + 1 implies !eligible(used@, avoid, j) by {
                    if j == i {
                        assert(avoid && taken);
                    }
                }
            } else {
                let k = best->Some_0 as int;
                assert(eligible(used@, avoid, k) && 0 <= k < i + 1);
            }
        }
        i = i + 1;
    }
    best
}

/// A set of indices below `n` that holds each of them has `n` members.
proof fn lemma_full_set(s: Set<usize>, n: nat)
    requires
        indices_below(s, n),
        n <= usize::MAX + 1,
        forall|i: usize| i < n ==> s.contains(i),
    ensures
        s.len() == n,
    decreases n,
{
    if n == 0 {
        assert(s =~= Set::empty());
    } else {
        let last = (n - 1) as usize;
        let t = s.remove(last);
        assert forall|i: usize| i < (n - 1) as nat implies t.contains(i) by {
            assert(s.contains(i));
        }
        lemma_full_set(t, (n - 1) as nat);
    }
}

/// `t` is `src` made into a tile: resampled to `bw` by `bh`, with the
/// feature map of the result under `cs`.
pub open spec fn is_tile_of(t: Tile, src: Image, bw: u32, bh: u32, cs: ColorSpace) -> bool {
    &&& t.image.wf()
    &&& t.image.width == bw
    &&& t.image.height == bh
    &&& t.image.pixels@ == lanczos3_resized(src.pixels@, src.width, src.height, bw, bh)
    &&& t.features.wf()
    &&& is_feature_map_of(t.features, t.image, cs)
}

/// Resamples `src` to the block size and computes its feature map.
pub fn prepare_tile(src: &Image, bw: u32, bh: u32, cs: ColorSpace) -> (t: Tile)
    requires
        src.wf(),
        bw * bh * 3 <= usize::MAX,
    ensures
        is_tile_of(t, *src, bw, bh, cs),
{
    let image = src.resized(bw, bh);
    let features = feature_map(&image, cs);
    Tile { image, features }
}

/// The tile library: each source made into a tile, in the sources' order.
pub fn build_library(sources: &Vec<Image>, bw: u32, bh: u32, cs: ColorSpace) -> (r: Vec<Tile>)
    requires
        forall|i: int| 0 <= i < sources@.len() ==> (#[trigger] sources@[i]).wf(),
        bw * bh * 3 <= usize::MAX,
    ensures
        r@.len() == sources@.len(),
        forall|i: int| 0 <= i < r@.len() ==> is_tile_of(#[trigger] r@[i], sources@[i], bw, bh, cs),
{
    prepare_all(sources, bw, bh, cs)
}

/// Relies on rayon's `par_iter().map(..).collect()` over a slice into a `Vec`:
/// one result per source, in the sources' order, each what `prepare_tile` returned.
#[verifier::external_body]
fn prepare_all(sources: &Vec<Image>, bw: u32, bh: u32, cs: ColorSpace) -> (r: Vec<Tile>)
    requires
        forall|i: int| 0 <= i < sources@.len() ==> (#[trigger] sources@[i]).wf(),
        bw * bh * 3 <= usize::MAX,
    ensures
        r@.len() == sources@.len(),
        forall|i: int| 0 <= i < r@.len() ==> is_tile_of(#[trigger] r@[i], sources@[i], bw, bh, cs),
{
    sources.par_iter().map(|s| prepare_tile(s, bw, bh, cs)).collect()
}

/// Every tile's feature map has the shape of `block`.
pub open spec fn tiles_match(block: FeatureMap, tiles: Seq<Tile>) -> bool {
    forall|i: int|
        0 <= i < tiles.len() ==> (#[trigger] tiles[i]).features.wf() && block.same_shape(
            &tiles[i].features,
        )
}

/// The distance of `block` to each tile, in library order.
pub open spec fn tile_distances(block: FeatureMap, tiles: Seq<Tile>) -> Seq<u128> {
    Seq::new(tiles.len(), |i: int| distance(block, tiles[i].features) as u128)
}

/// Relies on rayon's `par_iter().map(..).collect()` over a slice into a `Vec`:
/// one score per tile, in the tiles' order, each what `distance_exec` returned.
#[verifier::external_body]
fn score_all(block: &FeatureMap, tiles: &Vec<Tile>) -> (r: Vec<u128>)
    requires
        block.wf(),
        tiles_match(*block, tiles@),
    ensures
        r@.len() == tiles@.len(),
        forall|i: int| 0 <= i < r@.len() ==> #[trigger] r@[i] == distance(*block, tiles@[i].features),
{
    tiles.par_iter().map(|t| distance_exec(block, &t.features)).collect()
}

/// Picks the tile for one block. With `avoid` set, the used set is emptied
/// first if it holds every tile, only unused tiles are candidates, and the
/// pick is added to it. The pick has the least distance to `block`, the
/// lowest index on ties.
pub fn choose_tile(block: &FeatureMap, tiles: &Vec<Tile>, used: &mut BTreeSet<usize>, avoid: bool) -> (r: usize)
    requires
        block.wf(),
        tiles@.len() > 0,
        tiles_match(*block, tiles@),
        indices_below(old(used)@, tiles@.len()),
    ensures
        is_best(
            tile_distances(*block, tiles@),
            after_reset(old(used)@, tiles@.len(), avoid),
            avoid,
            r as int,
        ),
        final(used)@ == after_pick(old(used)@, tiles@.len(), avoid, r),
        indices_below(final(used)@, tiles@.len()),
{
    if avoid && used.len() == tiles.len() {
        used.clear();
    }
    let ghost seen = used@;
    assert(seen == after_reset(old(used)@, tiles@.len(), avoid));
    let scores = score_all(block, tiles);
    assert(scores@ =~= tile_distances(*block, tiles@));
    proof {
        if avoid {
            if forall|i: usize| i < tiles@.len() ==> seen.contains(i) {
                lemma_full_set(seen, tiles@.len());
                assert(seen.len() == tiles@.len());
                assert(old(used)@.len() == tiles@.len());
                assert(false);
            }
            let i = choose|i: usize| i < tiles@.len() && !seen.contains(i);
            assert(eligible(seen, avoid, i as int));
        } else {
            assert(eligible(seen, avoid, 0));
        }
    }
    let pick = select_best(&scores, used, avoid);
    let r = match pick {
        Some(k) => k,
        None => 0,
    };
    if avoid {
        used.insert(r);
    }
    r
}

/// The used set after the picks of `picks`, one cell after another, starting empty.
pub open spec fn used_after(n: nat, avoid: bool, picks: Seq<usize>) -> Set<usize>
    decreases picks.len(),
{
    if picks.len() == 0 {
        Set::empty()
    } else {
        after_pick(used_after(n, avoid, picks.drop_last()), n, avoid, picks.last())
    }
}

/// The distances of the block of `target` under cell `c` to each tile.
pub open spec fn cell_scores(target: FeatureMap, g: Grid, tiles: Seq<Tile>, c: Cell) -> Seq<u128> {
    let bw = g.block_width as int;
    let bh = g.block_height as int;
    Seq::new(
        tiles.len(),
        |j: int|
            distance_prefix(
                cell_values(target, c.x * bw, c.y * bh, bw, bh),
                tiles[j].features.values@,
                target.arity as nat,
                (bw * bh) as nat,
            ) as u128,
    )
}

/// `canvas` (`width` pixels wide) after the tile of each pick has been pasted
/// over the cell of `order` at the same position, in turn.
pub open spec fn placed(
    canvas: Seq<u8>,
    width: int,
    g: Grid,
    tiles: Seq<Tile>,
    order: Seq<Cell>,
    picks: Seq<usize>,
) -> Seq<u8>
    decreases picks.len(),
{
    if picks.len() == 0 {
        canvas
    } else {
        let c = order[picks.len() - 1];
        pasted(
            placed(canvas, width, g, tiles, order, picks.drop_last()),
            width,
            tiles[picks.last() as int].image.pixels@,
            g.block_width as int,
            g.block_height as int,
            c.x * g.block_width,
            c.y * g.block_height,
        )
    }
}

/// The tiles fit the grid: each is a block in size, with a feature map of
/// the block's shape and of `arity` values per pixel.
pub open spec fn tiles_fit(tiles: Seq<Tile>, g: Grid, arity: usize) -> bool {
    forall|i: int|
        0 <= i < tiles.len() ==> {
            let t = #[trigger] tiles[i];
            &&& t.image.wf()
            &&& t.image.width == g.block_width
            &&& t.image.height == g.block_height
            &&& t.features.wf()
            &&& t.features.width == g.block_width
            &&& t.features.height == g.block_height
            &&& t.features.arity == arity
        }
}

/// Visits the cells of `order` in turn. For each, the tile nearest to that
/// block of `target` (see `choose_tile`) is picked and pasted over the cell
/// of `canvas`. Returns the picks, one per cell of `order`.
pub fn compose(
    canvas: &mut Image,
    target: &FeatureMap,
    g: &Grid,
    tiles: &Vec<Tile>,
    order: &Vec<Cell>,
    avoid: bool,
) -> (picks: Vec<usize>)
    requires
        g.wf(),
        old(canvas).wf(),
        old(canvas).width == g.canvas_width(),
        old(canvas).height == g.canvas_height(),
        target.wf(),
        target.width == g.canvas_width(),
        target.height == g.canvas_height(),
        tiles@.len() > 0,
        tiles_fit(tiles@, *g, target.arity),
        forall|k: int| 0 <= k < order@.len() ==> g.in_grid(#[trigger] order@[k]),
    ensures
        picks@.len() == order@.len(),
        forall|k: int|
            0 <= k < picks@.len() ==> is_best(
                cell_scores(*target, *g, tiles@, order@[k]),
                after_reset(used_after(tiles@.len(), avoid, picks@.take(k)), tiles@.len(), avoid),
                avoid,
                #[trigger] picks@[k] as int,
            ),
        final(canvas).wf(),
        final(canvas).width == old(canvas).width,
        final(canvas).height == old(canvas).height,
        final(canvas).pixels@ == placed(
            old(canvas).pixels@,
            old(canvas).width as int,
            *g,
            tiles@,
            order@,
            picks@,
        ),
{
    let ghost n = tiles@.len();
    let ghost start = canvas.pixels@;
    let mut used: BTreeSet<usize> = BTreeSet::new();
    let mut picks: Vec<usize> = Vec::new();
    let bw = g.block_width;
    let bh = g.block_height;
    let mut k: usize = 0;
    while k < order.len()
        invariant
            g.wf(),
            bw == g.block_width,
            bh == g.block_height,
            canvas.wf(),
            canvas.width == g.canvas_width(),
            canvas.height == g.canvas_height(),
            target.wf(),
            target.width == g.canvas_width(),
            target.height == g.canvas_height(),
            n == tiles@.len(),
            n > 0,
            tiles_fit(tiles@, *g, target.arity),
            forall|k: int| 0 <= k < order@.len() ==> g.in_grid(#[trigger] order@[k]),
            k <= order@.len(),
            picks@.len() == k,
            used@ == used_after(n, avoid, picks@),
            indices_below(used@, n),
            forall|m: int|
                0 <= m < picks@.len() ==> is_best(
                    cell_scores(*target, *g, tiles@, order@[m]),
                    after_reset(used_after(n, avoid, picks@.take(m)), n, avoid),
                    avoid,
                    #[trigger] picks@[m] as int,
                ),
            canvas.pixels@ == placed(start, g.canvas_width(), *g, tiles@, order@, picks@),
        decreases order@.len() - k,
    {
        let c = order[k];
        assert(g.in_grid(order@[k as int]));
        proof {
            assert((c.x + 1) * bw <= g.canvas_width()) by (nonlinear_arith)
                requires
                    c.x < g.row_size,
                    g.canvas_width() == bw * g.row_size,
            ;
            assert((c.y + 1) * bh <= g.canvas_height()) by (nonlinear_arith)
                requires
                    c.y < g.col_size,
                    g.canvas_height() == bh * g.col_size,
            ;
        }
        assert(c.x * bw + bw == (c.x + 1) * bw) by (nonlinear_arith);
        assert(c.y * bh + bh == (c.y + 1) * bh) by (nonlinear_arith);
        let x0: u32 = c.x * bw;
        let y0: u32 = c.y * bh;
        let block = crop(target, x0, y0, bw, bh);
        let ghost before = picks@;
        let ghost used_before = used@;
        let pick = choose_tile(&block, tiles, &mut used, avoid);
        proof {
            assert(tile_distances(block, tiles@) =~= cell_scores(*target, *g, tiles@, c));
        }
        canvas.paste(&tiles[pick].image, x0, y0);
        picks.push(pick);
        proof {
            assert(picks@.drop_last() =~= before);
            assert(picks@.take(k as int) =~= before);
            assert forall|m: int|
                0 <= m < picks@.len() implies is_best(
                    cell_scores(*target, *g, tiles@, order@[m]),
                    after_reset(used_after(n, avoid, picks@.take(m)), n, avoid),
                    avoid,
                    #[trigger] picks@[m] as int,
                ) by {
                if m < k {
                    assert(picks@.take(m) =~= before.take(m));
                }
            }
        }
        k = k + 1;
    }
    proof {
        assert(picks@ =~= picks@.take(picks@.len() as int));
    }
    picks
}

/// Why no mosaic can be made.
#[derive(Clone, Copy, Debug, PartialEq, Eq, Structural)]
pub enum MosaicError {
    /// The grid cannot be laid over the target.
    Grid(GridError),
    /// There are no source images.
    EmptyLibrary,
}

/// `out` is a mosaic of `target` over grid `g` from `sources`: the target is
/// resampled to the canvas, `fm` is its feature map, `tiles` the library,
/// `order` visits every cell once, and `picks` are the tiles chosen there.
pub open spec fn is_outcome(
    target: Image,
    g: Grid,
    sources: Seq<Image>,
    cs: ColorSpace,
    avoid: bool,
    out: Image,
    order: Seq<Cell>,
    picks: Seq<usize>,
    tiles: Seq<Tile>,
    fm: FeatureMap,
) -> bool {
    let cw = g.canvas_width() as u32;
    let ch = g.canvas_height() as u32;
    let canvas = lanczos3_resized(target.pixels@, target.width, target.height, cw, ch);
    &&& tiles.len() == sources.len()
    &&& forall|i: int|
        0 <= i < tiles.len() ==> is_tile_of(
            #[trigger] tiles[i],
            sources[i],
            g.block_width,
            g.block_height,
            cs,
        )
    &&& fm.wf()
    &&& fm.width == cw
    &&& fm.height == ch
    &&& fm.arity == arity_of(cs)
    &&& forall|p: int, k: int|
        0 <= p < cw * ch && 0 <= k < fm.arity ==> fm.values@[p * fm.arity + k]
            == #[trigger] crate::features::features_at(cs, canvas, p)[k]
    &&& order.to_multiset() == g.cells().to_multiset()
    &&& picks.len() == order.len()
    &&& forall|k: int|
        0 <= k < picks.len() ==> is_best(
            cell_scores(fm, g, tiles, order[k]),
            after_reset(used_after(tiles.len(), avoid, picks.take(k)), tiles.len(), avoid),
            avoid,
            #[trigger] picks[k] as int,
        )
    &&& out.wf()
    &&& out.width == cw
    &&& out.height == ch
    &&& out.pixels@ == placed(canvas, cw as int, g, tiles, order, picks)
}

/// Rebuilds `target` as a mosaic of `row_size` by `col_size` cells from the
/// images of `sources`, matching under `cs`, and with `avoid` set using no
/// source twice until every one has been used. The cells are visited in a
/// random order.
pub fn mosaic(
    target: &Image,
    row_size: u32,
    col_size: u32,
    sources: &Vec<Image>,
    cs: ColorSpace,
    avoid: bool,
) -> (r: Result<Image, MosaicError>)
    requires
        target.wf(),
        forall|i: int| 0 <= i < sources@.len() ==> (#[trigger] sources@[i]).wf(),
    ensures
        Grid::new_spec(target.width, target.height, row_size, col_size) is Err ==> r
            == Err::<Image, MosaicError>(
            MosaicError::Grid(Grid::new_spec(target.width, target.height, row_size, col_size)->Err_0),
        ),
        Grid::new_spec(target.width, target.height, row_size, col_size) is Ok && sources@.len()
            == 0 ==> r == Err::<Image, MosaicError>(MosaicError::EmptyLibrary),
        Grid::new_spec(target.width, target.height, row_size, col_size) is Ok && sources@.len()
            > 0 ==> r is Ok,
        r is Ok ==> exists|order: Seq<Cell>, picks: Seq<usize>, tiles: Seq<Tile>, fm: FeatureMap|
            is_outcome(
                *target,
                Grid::new_spec(target.width, target.height, row_size, col_size)->Ok_0,
                sources@,
                cs,
                avoid,
                r->Ok_0,
                order,
                picks,
                tiles,
                fm,
            ),
{
    let g = match Grid::new(target.width, target.height, row_size, col_size) {
        Ok(g) => g,
        Err(e) => {
            return Err(MosaicError::Grid(e));
        },
    };
    if sources.len() == 0 {
        return Err(MosaicError::EmptyLibrary);
    }
    let cw = g.canvas_width_exec();
    let ch = g.canvas_height_exec();
    let total = target.pixels.len();
    proof {
        assert(cw * ch * 3 <= target.width * target.height * 3) by (nonlinear_arith)
            requires
                cw <= target.width,
                ch <= target.height,
        ;
        assert(g.block_width * g.block_height * 3 <= cw * ch * 3) by (nonlinear_arith)
            requires
                cw == g.block_width * g.row_size,
                ch == g.block_height * g.col_size,
                g.row_size >= 1,
                g.col_size >= 1,
        ;
    }
    let mut canvas = target.resized(cw, ch);
    let ghost start = canvas;
    let fm = feature_map(&canvas, cs);
    let tiles = build_library(sources, g.block_width, g.block_height, cs);
    let order = g.traversal_order();
    proof {
        assert forall|k: int| 0 <= k < order@.len() implies g.in_grid(#[trigger] order@[k]) by {
            vstd::seq_lib::to_multiset_contains(order@, order@[k]);
            vstd::seq_lib::to_multiset_contains(g.cells(), order@[k]);
            assert(order@.contains(order@[k]));
            assert(g.cells().contains(order@[k]));
            let i = choose|i: int| 0 <= i < g.cells().len() && g.cells()[i] == order@[k];
            lemma_cell_at_in_grid(g, i);
        }
    }
    let picks = compose(&mut canvas, &fm, &g, &tiles, &order, avoid);
    let ghost spec_grid = Grid::new_spec(target.width, target.height, row_size, col_size)->Ok_0;
    assert(spec_grid == g);
    let r: Result<Image, MosaicError> = Ok(canvas);
    assert(is_outcome(*target, spec_grid, sources@, cs, avoid, r->Ok_0, order@, picks@, tiles@, fm));
    assert(exists|order: Seq<Cell>, picks: Seq<usize>, tiles: Seq<Tile>, fm: FeatureMap|
            is_outcome(*target, spec_grid, sources@, cs, avoid, r->Ok_0, order, picks, tiles, fm));
    r
}

/// With duplicate avoidance the used set is emptied exactly when, before a
/// cell is searched, it holds as many tiles as the library.
pub proof fn lemma_reset_exactly_when_full(used: Set<usize>, n: nat)
    ensures
        used.len() == n ==> after_reset(used, n, true) == Set::<usize>::empty(),
        used.len() != n ==> after_reset(used, n, true) == used,
{
}

/// Once picked, a tile stays in the used set until the next reset.
proof fn lemma_used_keeps_pick(n: nat, picks: Seq<usize>, j: int, m: int)
    requires
        0 <= j < m <= picks.len(),
        forall|i: int| j < i < m ==> (#[trigger] used_after(n, true, picks.take(i))).len() != n,
    ensures
        used_after(n, true, picks.take(m)).contains(picks[j]),
    decreases m - j,
{
    assert(picks.take(m).drop_last() =~= picks.take(m - 1));
    assert(picks.take(m).last() == picks[m - 1]);
    if m > j + 1 {
        lemma_used_keeps_pick(n, picks, j, m - 1);
        assert(used_after(n, true, picks.take(m - 1)).len() != n);
    }
}

/// With duplicate avoidance, picks that satisfy the eligibility rule never
/// repeat a tile between two resets: if no reset happens before any of the
/// cells `j + 1 ..= k`, the tiles picked at `j` and at `k` differ.
pub proof fn lemma_no_repeat_between_resets(n: nat, picks: Seq<usize>, j: int, k: int)
    requires
        0 <= j < k < picks.len(),
        forall|m: int|
            0 <= m < picks.len() ==> eligible(
                after_reset(used_after(n, true, #[trigger] picks.take(m)), n, true),
                true,
                picks[m] as int,
            ),
        forall|m: int| j < m <= k ==> (#[trigger] used_after(n, true, picks.take(m))).len() != n,
    ensures
        picks[j] != picks[k],
{
    lemma_used_keeps_pick(n, picks, j, k);
    assert(used_after(n, true, picks.take(k)).len() != n);
    assert(eligible(after_reset(used_after(n, true, picks.take(k)), n, true), true, picks[k] as int));
}

/// A uniform block is matched by the one uniform tile with its own vector:
/// that tile scores zero and every other tile scores more, so it is the
/// pick wherever it may be picked.
pub proof fn lemma_uniform_block_picks_own_tile(
    block: FeatureMap,
    v: Seq<i64>,
    tiles: Seq<Tile>,
    vs: Seq<Seq<i64>>,
    i: int,
    used: Set<usize>,
    avoid: bool,
)
    requires
        block.wf(),
        block.width > 0,
        block.height > 0,
        is_uniform(block, v),
        vs.len() == tiles.len(),
        tiles_match(block, tiles),
        forall|j: int| 0 <= j < tiles.len() ==> is_uniform(#[trigger] tiles[j].features, vs[j]),
        0 <= i < tiles.len(),
        vs[i] == v,
        forall|j: int| 0 <= j < tiles.len() && j != i ==> vs[j] != v,
        eligible(used, avoid, i),
    ensures
        tile_distances(block, tiles)[i] == 0,
        is_best(tile_distances(block, tiles), used, avoid, i),
{
    assert(block.width * block.height >= 1) by (nonlinear_arith)
        requires
            block.width > 0,
            block.height > 0,
    ;
    let scores = tile_distances(block, tiles);
    assert forall|j: int| 0 <= j < tiles.len() implies (j == i ==> scores[j] == 0) && (j != i
        ==> scores[j] >= 1) by {
        assert(tiles_match(block, tiles) ==> block.same_shape(&tiles[j].features));
        assert(is_uniform(tiles[j].features, vs[j]));
        lemma_uniform_distance(block, tiles[j].features, v, vs[j]);
        assert(block.width * block.height * 0x4000_0000 <= u128::MAX) by (nonlinear_arith)
            requires
                block.width <= u32::MAX,
                block.height <= u32::MAX,
        ;
    }
    assert(scores[i] == 0);
}

} // verus!
