//! Tile sets, sparse tile layers and the three-layer tile map shared by editor and runtime.

use std::collections::HashMap;
use std::collections::HashSet;
use crate::localization::{tr, translate, LocalizationState};
use vstd::prelude::*;
use vstd::set_lib::lemma_len_subset;

verus! {

broadcast use vstd::std_specs::hash::group_hash_axioms;

/// Collision and transparency flags of one tile cut out of an atlas.
#[derive(Clone, Copy, PartialEq, Eq, Structural, Debug)]
pub struct TileProperty {
    pub tile_id: u32,
    pub collision: bool,
    pub transparent: bool,
}

/// The fixed format marker written into every tile set file.
pub open spec fn tileset_format_text() -> Seq<char> {
    "SLIDE2D_TILESET"@
}

/// Returns the fixed format marker of tile set files.
pub fn tileset_format() -> (r: String)
    ensures
        r@ == tileset_format_text(),
{
    "SLIDE2D_TILESET".to_owned()
}

/// A tile atlas cut into equally sized cells.
pub struct TileSet {
    pub slide2d_engine: String,
    pub name: String,
    pub image_path: String,
    pub tile_width: u32,
    pub tile_height: u32,
    pub columns: u32,
    pub rows: u32,
    pub properties: Vec<TileProperty>,
}

/// A cell size of zero is treated as one.
pub open spec fn safe_tile_size(size: u32) -> u32 {
    if size == 0 {
        1
    } else {
        size
    }
}

impl TileSet {
    /// Cuts an image of the given size into cells of the given size; every tile starts
    /// without collision and opaque.
    pub fn new(
        name: String,
        image_path: String,
        image_width: u32,
        image_height: u32,
        tile_width: u32,
        tile_height: u32,
    ) -> (r: Self)
        requires
            (image_width / safe_tile_size(tile_width)) * (image_height / safe_tile_size(
                tile_height,
            )) <= u32::MAX,
        ensures
            r.slide2d_engine@ == tileset_format_text(),
            r.name == name,
            r.image_path == image_path,
            r.tile_width == safe_tile_size(tile_width),
            r.tile_height == safe_tile_size(tile_height),
            r.columns == image_width / safe_tile_size(tile_width),
            r.rows == image_height / safe_tile_size(tile_height),
            r.properties@.len() == r.columns * r.rows,
            forall|i: int|
                0 <= i < r.properties@.len() ==> #[trigger] r.properties@[i] == (TileProperty {
                    tile_id: i as u32,
                    collision: false,
                    transparent: false,
                }),
    {
        let safe_width = if tile_width == 0 {
            1
        } else {
            tile_width
        };
        let safe_height = if tile_height == 0 {
            1
        } else {
            tile_height
        };
        let columns = image_width / safe_width;
        let rows = image_height / safe_height;
        let count = columns * rows;
        let mut properties: Vec<TileProperty> = Vec::new();
        let mut tile_id: u32 = 0;
        while tile_id < count
            invariant
                tile_id <= count,
                properties@.len() == tile_id,
                forall|i: int|
                    0 <= i < properties@.len() ==> #[trigger] properties@[i] == (TileProperty {
                        tile_id: i as u32,
                        collision: false,
                        transparent: false,
                    }),
            decreases count - tile_id,
        {
            properties.push(TileProperty { tile_id, collision: false, transparent: false });
            tile_id = tile_id + 1;
        }
        TileSet {
            slide2d_engine: tileset_format(),
            name,
            image_path,
            tile_width: safe_width,
            tile_height: safe_height,
            columns,
            rows,
            properties,
        }
    }

    /// Returns the first property entry of the given tile, if any.
    pub fn property(&self, tile_id: u32) -> (r: Option<&TileProperty>)
        ensures
            match r {
                Some(p) => exists|i: int|
                    0 <= i < self.properties@.len() && self.properties@[i] == *p && p.tile_id
                        == tile_id && forall|j: int|
                        0 <= j < i ==> #[trigger] self.properties@[j].tile_id != tile_id,
                None => forall|i: int|
                    0 <= i < self.properties@.len() ==> #[trigger] self.properties@[i].tile_id
                        != tile_id,
            },
    {
        let mut i: usize = 0;
        while i < self.properties.len()
            invariant
                i <= self.properties@.len(),
                forall|j: int| 0 <= j < i ==> #[trigger] self.properties@[j].tile_id != tile_id,
            decreases self.properties@.len() - i,
        {
            if self.properties[i].tile_id == tile_id {
                return Some(&self.properties[i]);
            }
            i = i + 1;
        }
        None
    }
}

/// The three fixed layers of a tile map.
#[derive(Clone, Copy, PartialEq, Eq, Structural, Debug, Hash)]
pub enum TileLayerKind {
    Ground,
    Decoration,
    Collision,
}

/// One painted cell of a layer.
#[derive(Clone, Copy, PartialEq, Eq, Structural, Debug)]
pub struct TileCell {
    pub x: i32,
    pub y: i32,
    pub tile_id: u32,
}

/// The grid position of a cell.
pub type TilePos = (i32, i32);

/// Injective encoding of a grid position into the key of the position index.
pub open spec fn cell_key(x: i32, y: i32) -> u64 {
    ((x as int + 0x8000_0000) * 0x1_0000_0000 + (y as int + 0x8000_0000)) as u64
}

/// Two positions share an index key only if they are the same position.
pub proof fn lemma_cell_key_injective(x1: i32, y1: i32, x2: i32, y2: i32)
    ensures
        cell_key(x1, y1) == cell_key(x2, y2) <==> (x1 == x2 && y1 == y2),
{
    let a1 = x1 as int + 0x8000_0000;
    let b1 = y1 as int + 0x8000_0000;
    let a2 = x2 as int + 0x8000_0000;
    let b2 = y2 as int + 0x8000_0000;
    assert(0 <= a1 * 0x1_0000_0000 + b1 <= u64::MAX);
    assert(0 <= a2 * 0x1_0000_0000 + b2 <= u64::MAX);
    if a1 < a2 {
        assert(a1 * 0x1_0000_0000 + b1 < a2 * 0x1_0000_0000 + b2);
    } else if a2 < a1 {
        assert(a2 * 0x1_0000_0000 + b2 < a1 * 0x1_0000_0000 + b1);
    }
}

/// Computes the index key of a grid position.
fn key_of(x: i32, y: i32) -> (k: u64)
    ensures
        k == cell_key(x, y),
{
    let a: u64 = (x as i64 + 0x8000_0000i64) as u64;
    let b: u64 = (y as i64 + 0x8000_0000i64) as u64;
    a * 0x1_0000_0000u64 + b
}

/// A sparse layer that stores only painted cells, with an index from position to cell.
pub struct TileLayer {
    pub kind: TileLayerKind,
    pub visible: bool,
    cells: Vec<TileCell>,
    positions: HashMap<u64, usize>,
}

impl View for TileLayer {
    type V = Map<TilePos, u32>;

    /// The layer as a map from painted positions to tile ids.
    open spec fn view(&self) -> Map<TilePos, u32> {
        self.tiles()
    }
}

/// Position of a cell.
pub open spec fn pos_of(c: TileCell) -> TilePos {
    (c.x, c.y)
}

/// The value a map holds at a key, as an option.
pub open spec fn map_get<K, V>(m: Map<K, V>, k: K) -> Option<V> {
    if m.contains_key(k) {
        Some(m[k])
    } else {
        None
    }
}

impl TileLayer {
    /// The kind of the layer.
    pub closed spec fn kind_of(&self) -> TileLayerKind {
        self.kind
    }

    /// Whether the layer is drawn.
    pub closed spec fn is_visible(&self) -> bool {
        self.visible
    }

    /// The cells of the layer, in storage order.
    pub closed spec fn cell_seq(&self) -> Seq<TileCell> {
        self.cells@
    }

    /// The layer as a map from painted positions to tile ids.
    pub closed spec fn tiles(&self) -> Map<TilePos, u32> {
        Map::new(
            |p: TilePos| self.positions@.contains_key(cell_key(p.0, p.1)),
            |p: TilePos| self.cells@[self.positions@[cell_key(p.0, p.1)] as int].tile_id,
        )
    }

    /// The position index agrees with the stored cells.
    pub closed spec fn wf(&self) -> bool {
        &&& forall|i: int|
            #![trigger self.cells@[i]]
            0 <= i < self.cells@.len() ==> self.positions@.contains_key(
                cell_key(self.cells@[i].x, self.cells@[i].y),
            ) && self.positions@[cell_key(self.cells@[i].x, self.cells@[i].y)] == i
        &&& forall|k: u64|
            #[trigger] self.positions@.contains_key(k) ==> (self.positions@[k] as int)
                < self.cells@.len() && cell_key(
                self.cells@[self.positions@[k] as int].x,
                self.cells@[self.positions@[k] as int].y,
            ) == k
    }

    /// In a well-formed layer every stored cell is what the map holds at its position,
    /// no two stored cells share a position, and every painted position has a stored cell.
    pub proof fn lemma_cells_match_tiles(&self)
        requires
            self.wf(),
        ensures
            forall|i: int|
                #![trigger self.cell_seq()[i]]
                0 <= i < self.cell_seq().len() ==> self@.contains_key(pos_of(self.cell_seq()[i]))
                    && self@[pos_of(self.cell_seq()[i])] == self.cell_seq()[i].tile_id,
            forall|i: int, j: int|
                #![trigger self.cell_seq()[i], self.cell_seq()[j]]
                0 <= i < self.cell_seq().len() && 0 <= j < self.cell_seq().len() && i != j
                    ==> pos_of(self.cell_seq()[i]) != pos_of(self.cell_seq()[j]),
            forall|p: TilePos|
                #[trigger] self@.contains_key(p) ==> exists|i: int|
                    0 <= i < self.cell_seq().len() && pos_of(self.cell_seq()[i]) == p,
    {
        assert forall|i: int, j: int|
            #![trigger self.cell_seq()[i], self.cell_seq()[j]]
            0 <= i < self.cell_seq().len() && 0 <= j < self.cell_seq().len() && i != j
                implies pos_of(self.cell_seq()[i]) != pos_of(self.cell_seq()[j]) by {
            let ci = self.cells@[i];
            let cj = self.cells@[j];
            if pos_of(ci) == pos_of(cj) {
                assert(self.positions@[cell_key(ci.x, ci.y)] == i);
                assert(self.positions@[cell_key(cj.x, cj.y)] == j);
            }
        }
        assert forall|p: TilePos| #[trigger] self@.contains_key(p) implies exists|i: int|
            0 <= i < self.cell_seq().len() && pos_of(self.cell_seq()[i]) == p by {
            let k = cell_key(p.0, p.1);
            let i = self.positions@[k] as int;
            let c = self.cells@[i];
            lemma_cell_key_injective(c.x, c.y, p.0, p.1);
            assert(pos_of(self.cell_seq()[i]) == p);
        }
    }

    /// Creates an empty visible layer.
    pub fn new(kind: TileLayerKind) -> (r: Self)
        ensures
            r.wf(),
            r@ == Map::<TilePos, u32>::empty(),
            r.cell_seq().len() == 0,
            r.kind_of() == kind,
            r.is_visible(),
    {
        let r = TileLayer { kind, visible: true, cells: Vec::new(), positions: HashMap::new() };
        assert(r@ =~= Map::<TilePos, u32>::empty());
        r
    }

    /// The stored cells, each painted position exactly once.
    pub fn cells(&self) -> (r: &Vec<TileCell>)
        ensures
            r@ == self.cell_seq(),
    {
        &self.cells
    }

    /// Index of the stored cell at a position, if the position is painted.
    fn find(&self, x: i32, y: i32) -> (r: Option<usize>)
        requires
            self.wf(),
        ensures
            match r {
                Some(i) => self@.contains_key((x, y)) && (i as int) < self.cells@.len()
                    && self.cells@[i as int].x == x && self.cells@[i as int].y == y
                    && self.positions@[cell_key(x, y)] == i,
                None => !self@.contains_key((x, y)) && !self.positions@.contains_key(
                    cell_key(x, y),
                ),
            },
    {
        let k = key_of(x, y);
        match self.positions.get(&k) {
            Some(i) => {
                proof {
                    let c = self.cells@[*i as int];
                    lemma_cell_key_injective(c.x, c.y, x, y);
                }
                Some(*i)
            },
            None => None,
        }
    }

    /// Returns the tile painted at a position.
    pub fn tile_at(&self, x: i32, y: i32) -> (r: Option<u32>)
        requires
            self.wf(),
        ensures
            r == map_get(self@, (x, y)),
    {
        match self.find(x, y) {
            Some(i) => Some(self.cells[i].tile_id),
            None => None,
        }
    }

    /// Paints one tile, overwriting what was there.
    pub fn set_tile(&mut self, x: i32, y: i32, tile_id: u32)
        requires
            old(self).wf(),
        ensures
            final(self).wf(),
            final(self)@ == old(self)@.insert((x, y), tile_id),
            final(self).kind_of() == old(self).kind_of(),
            final(self).is_visible() == old(self).is_visible(),
            old(self)@.contains_key((x, y)) ==> final(self).cell_seq().len() == old(
                self,
            ).cell_seq().len(),
            !old(self)@.contains_key((x, y)) ==> final(self).cell_seq().len() == old(
                self,
            ).cell_seq().len() + 1,
            !old(self)@.contains_key((x, y)) ==> final(self).cell_seq() == old(self).cell_seq().push(
                (TileCell { x, y, tile_id }),
            ),
            old(self)@.contains_key((x, y)) ==> exists|i: int|
                0 <= i < old(self).cell_seq().len() && pos_of(#[trigger] old(self).cell_seq()[i]) == (
                    x,
                    y,
                ) && final(self).cell_seq() == old(self).cell_seq().update(
                    i,
                    (TileCell { x, y, tile_id }),
                ),
    {
        let ghost old_layer = *self;
        match self.find(x, y) {
            Some(i) => {
                self.cells.set(i, TileCell { x, y, tile_id });
                assert forall|k: u64| #[trigger] self.positions@.contains_key(k) implies (
                self.positions@[k] as int) < self.cells@.len() && cell_key(
                    self.cells@[self.positions@[k] as int].x,
                    self.cells@[self.positions@[k] as int].y,
                ) == k by {
                    assert(old_layer.positions@.contains_key(k));
                }
                assert forall|p: TilePos| #[trigger]
                    self@.contains_key(p) == old_layer@.insert((x, y), tile_id).contains_key(p)
                    by {}
                assert forall|p: TilePos| self@.contains_key(p) implies #[trigger] self@[p]
                    == old_layer@.insert((x, y), tile_id)[p] by {
                    if p != (x, y) {
                        lemma_cell_key_injective(p.0, p.1, x, y);
                    }
                }
                assert(self@ =~= old_layer@.insert((x, y), tile_id));
                assert(pos_of(old_layer.cell_seq()[i as int]) == (x, y)
                    && self.cell_seq() == old_layer.cell_seq().update(
                    i as int,
                    TileCell { x, y, tile_id },
                ));
            },
            None => {
                let index = self.cells.len();
                self.cells.push(TileCell { x, y, tile_id });
                let k = key_of(x, y);
                self.positions.insert(k, index);
                assert forall|i: int|
                    #![trigger self.cells@[i]]
                    0 <= i < self.cells@.len() implies self.positions@.contains_key(
                    cell_key(self.cells@[i].x, self.cells@[i].y),
                ) && self.positions@[cell_key(self.cells@[i].x, self.cells@[i].y)] == i by {
                    if i < index {
                        let c = self.cells@[i];
                        assert(old_layer.cells@[i] == c);
                        lemma_cell_key_injective(c.x, c.y, x, y);
                    }
                }
                assert forall|p: TilePos| #[trigger]
                    self@.contains_key(p) == old_layer@.insert((x, y), tile_id).contains_key(p)
                    by {
                    lemma_cell_key_injective(p.0, p.1, x, y);
                }
                assert forall|p: TilePos| self@.contains_key(p) implies #[trigger] self@[p]
                    == old_layer@.insert((x, y), tile_id)[p] by {
                    lemma_cell_key_injective(p.0, p.1, x, y);
                }
                assert(self@ =~= old_layer@.insert((x, y), tile_id));
            },
        }
    }
}


/// `m` with every position of `region` set to `tile_id`.
pub open spec fn paint(m: Map<TilePos, u32>, region: spec_fn(TilePos) -> bool, tile_id: u32) -> Map<
    TilePos,
    u32,
> {
    Map::new(
        |p: TilePos| m.contains_key(p) || region(p),
        |p: TilePos|
            if region(p) {
                tile_id
            } else {
                m[p]
            },
    )
}

/// Whether a position lies in the closed rectangle.
pub open spec fn in_rect(
    p: TilePos,
    minimum_x: int,
    minimum_y: int,
    maximum_x: int,
    maximum_y: int,
) -> bool {
    minimum_x <= p.0 <= maximum_x && minimum_y <= p.1 <= maximum_y
}

/// Positions already covered while a rectangle is filled row by row: every row before `y`,
/// and the cells of row `y` before `x`.
pub open spec fn rect_prefix(
    p: TilePos,
    minimum_x: int,
    minimum_y: int,
    maximum_x: int,
    y: int,
    x: int,
) -> bool {
    (minimum_x <= p.0 <= maximum_x && minimum_y <= p.1 < y) || (p.1 == y && minimum_x <= p.0 < x)
}

/// The tiles of a cell list where the first cell at a position wins.
pub open spec fn cells_map(s: Seq<TileCell>) -> Map<TilePos, u32>
    decreases s.len(),
{
    if s.len() == 0 {
        Map::empty()
    } else {
        let m = cells_map(s.drop_last());
        if m.contains_key(pos_of(s.last())) {
            m
        } else {
            m.insert(pos_of(s.last()), s.last().tile_id)
        }
    }
}

/// Clamps a size to the largest non-negative `i32`.
pub open spec fn clamp_to_i32(v: u32) -> int {
    if v > i32::MAX as u32 {
        i32::MAX as int
    } else {
        v as int
    }
}

impl TileLayer {
    /// Removes the tile at a position, if any.
    pub fn erase_tile(&mut self, x: i32, y: i32)
        requires
            old(self).wf(),
        ensures
            final(self).wf(),
            final(self)@ == old(self)@.remove((x, y)),
            final(self).kind_of() == old(self).kind_of(),
            final(self).is_visible() == old(self).is_visible(),
            old(self)@.contains_key((x, y)) ==> final(self).cell_seq().len() + 1 == old(
                self,
            ).cell_seq().len(),
            !old(self)@.contains_key((x, y)) ==> final(self).cell_seq() == old(self).cell_seq(),
            old(self)@.contains_key((x, y)) ==> exists|i: int|
                0 <= i < old(self).cell_seq().len() && pos_of(#[trigger] old(self).cell_seq()[i]) == (
                    x,
                    y,
                ) && final(self).cell_seq() == old(self).cell_seq().update(
                    i,
                    old(self).cell_seq().last(),
                ).drop_last(),
    {
        let ghost old_layer = *self;
        match self.find(x, y) {
            None => {
                assert(self@ =~= old_layer@.remove((x, y)));
            },
            Some(removed) => {
                let k = key_of(x, y);
                self.positions.remove(&k);
                let ghost last = old_layer.cells@.last();
                let ghost last_index = old_layer.cells@.len() - 1;
                self.cells.swap_remove(removed);
                proof {
                    lemma_cell_key_injective(last.x, last.y, x, y);
                    assert(old_layer.positions@[cell_key(last.x, last.y)] == last_index);
                }
                if removed < self.cells.len() {
                    let moved = self.cells[removed];
                    let mk = key_of(moved.x, moved.y);
                    self.positions.insert(mk, removed);
                    assert(moved == last);
                    assert forall|i: int|
                        #![trigger self.cells@[i]]
                        0 <= i < self.cells@.len() implies self.positions@.contains_key(
                        cell_key(self.cells@[i].x, self.cells@[i].y),
                    ) && self.positions@[cell_key(self.cells@[i].x, self.cells@[i].y)] == i by {
                        if i != removed {
                            let c = self.cells@[i];
                            assert(old_layer.cells@[i] == c);
                            assert(old_layer.positions@[cell_key(c.x, c.y)] == i);
                            assert(old_layer.positions@[cell_key(moved.x, moved.y)]
                                == last_index);
                        }
                    }
                    assert forall|kk: u64| #[trigger] self.positions@.contains_key(kk) implies (
                    self.positions@[kk] as int) < self.cells@.len() && cell_key(
                        self.cells@[self.positions@[kk] as int].x,
                        self.cells@[self.positions@[kk] as int].y,
                    ) == kk by {
                        if kk != mk {
                            assert(old_layer.positions@.contains_key(kk));
                            let j = old_layer.positions@[kk] as int;
                            let cj = old_layer.cells@[j];
                            if j == last_index {
                                assert(cell_key(cj.x, cj.y) == mk);
                            }
                            if j == removed {
                                assert(kk == k);
                            }
                        }
                    }
                    assert forall|p: TilePos| #[trigger]
                        self@.contains_key(p) == old_layer@.remove((x, y)).contains_key(p) by {
                        lemma_cell_key_injective(p.0, p.1, x, y);
                        lemma_cell_key_injective(p.0, p.1, moved.x, moved.y);
                    }
                    assert forall|p: TilePos| self@.contains_key(p) implies #[trigger] self@[p]
                        == old_layer@.remove((x, y))[p] by {
                        lemma_cell_key_injective(p.0, p.1, x, y);
                        lemma_cell_key_injective(p.0, p.1, moved.x, moved.y);
                        let kp = cell_key(p.0, p.1);
                        if kp != mk {
                            let j = old_layer.positions@[kp] as int;
                            if j == last_index {
                                let cj = old_layer.cells@[j];
                                assert(cell_key(cj.x, cj.y) == kp);
                            }
                        }
                    }
                    assert(self@ =~= old_layer@.remove((x, y)));
                } else {
                    assert forall|kk: u64| #[trigger] self.positions@.contains_key(kk) implies (
                    self.positions@[kk] as int) < self.cells@.len() && cell_key(
                        self.cells@[self.positions@[kk] as int].x,
                        self.cells@[self.positions@[kk] as int].y,
                    ) == kk by {
                        assert(old_layer.positions@.contains_key(kk));
                        let j = old_layer.positions@[kk] as int;
                        if j == removed {
                            let cj = old_layer.cells@[j];
                            assert(cell_key(cj.x, cj.y) == kk);
                        }
                    }
                    assert forall|i: int|
                        #![trigger self.cells@[i]]
                        0 <= i < self.cells@.len() implies self.positions@.contains_key(
                        cell_key(self.cells@[i].x, self.cells@[i].y),
                    ) && self.positions@[cell_key(self.cells@[i].x, self.cells@[i].y)] == i by {
                        let c = self.cells@[i];
                        assert(old_layer.cells@[i] == c);
                        assert(old_layer.positions@[cell_key(c.x, c.y)] == i);
                    }
                    assert forall|p: TilePos| #[trigger]
                        self@.contains_key(p) == old_layer@.remove((x, y)).contains_key(p) by {
                        lemma_cell_key_injective(p.0, p.1, x, y);
                    }
                    assert(self@ =~= old_layer@.remove((x, y)));
                }
                assert(pos_of(old_layer.cell_seq()[removed as int]) == (x, y)
                    && self.cell_seq() == old_layer.cell_seq().update(
                    removed as int,
                    old_layer.cell_seq().last(),
                ).drop_last());
            },
        }
    }

    /// Paints every position of the closed rectangle with one tile; an empty rectangle
    /// (a minimum above its maximum) changes nothing, not even the order of the stored
    /// cells.
    pub fn replace_rect(
        &mut self,
        minimum_x: i32,
        minimum_y: i32,
        maximum_x: i32,
        maximum_y: i32,
        tile_id: u32,
    )
        requires
            old(self).wf(),
        ensures
            final(self).wf(),
            final(self)@ == paint(
                old(self)@,
                |p: TilePos|
                    in_rect(
                        p,
                        minimum_x as int,
                        minimum_y as int,
                        maximum_x as int,
                        maximum_y as int,
                    ),
                tile_id,
            ),
            final(self).kind_of() == old(self).kind_of(),
            final(self).is_visible() == old(self).is_visible(),
            minimum_x > maximum_x || minimum_y > maximum_y ==> final(self).cell_seq() == old(
                self,
            ).cell_seq(),
    {
        let ghost old_map = self@;
        let ghost target = paint(
            old_map,
            |p: TilePos|
                in_rect(p, minimum_x as int, minimum_y as int, maximum_x as int, maximum_y as int),
            tile_id,
        );
        if minimum_x > maximum_x || minimum_y > maximum_y {
            assert(self@ =~= target);
            return ;
        }
        self.paint_rect(minimum_x, minimum_y, maximum_x, maximum_y, tile_id);
    }

    /// Paints a non-empty rectangle row by row.
    fn paint_rect(
        &mut self,
        minimum_x: i32,
        minimum_y: i32,
        maximum_x: i32,
        maximum_y: i32,
        tile_id: u32,
    )
        requires
            old(self).wf(),
            minimum_x <= maximum_x,
            minimum_y <= maximum_y,
        ensures
            final(self).wf(),
            final(self)@ == paint(
                old(self)@,
                |p: TilePos|
                    in_rect(
                        p,
                        minimum_x as int,
                        minimum_y as int,
                        maximum_x as int,
                        maximum_y as int,
                    ),
                tile_id,
            ),
            final(self).kind_of() == old(self).kind_of(),
            final(self).is_visible() == old(self).is_visible(),
    {
        let ghost old_map = self@;
        let ghost kind = self.kind;
        let ghost visible = self.visible;
        let mut y: i64 = minimum_y as i64;
        while y <= maximum_y as i64
            invariant
                self.wf(),
                self.kind == kind,
                self.visible == visible,
                minimum_x <= maximum_x,
                minimum_y <= y <= maximum_y as i64 + 1,
                self@ == paint(
                    old_map,
                    |p: TilePos|
                        rect_prefix(
                            p,
                            minimum_x as int,
                            minimum_y as int,
                            maximum_x as int,
                            y as int,
                            minimum_x as int,
                        ),
                    tile_id,
                ),
            decreases maximum_y as i64 + 1 - y,
        {
            let mut x: i64 = minimum_x as i64;
            while x <= maximum_x as i64
                invariant
                    self.wf(),
                    self.kind == kind,
                    self.visible == visible,
                    minimum_x <= x <= maximum_x as i64 + 1,
                    minimum_y <= y <= maximum_y,
                    self@ == paint(
                        old_map,
                        |p: TilePos|
                            rect_prefix(
                                p,
                                minimum_x as int,
                                minimum_y as int,
                                maximum_x as int,
                                y as int,
                                x as int,
                            ),
                        tile_id,
                    ),
                decreases maximum_x as i64 + 1 - x,
            {
                let ghost before = self@;
                self.set_tile(x as i32, y as i32, tile_id);
                let ghost next = paint(
                    old_map,
                    |p: TilePos|
                        rect_prefix(
                            p,
                            minimum_x as int,
                            minimum_y as int,
                            maximum_x as int,
                            y as int,
                            x + 1,
                        ),
                    tile_id,
                );
                assert(self@ =~= next);
                x = x + 1;
            }
            let ghost row_done = paint(
                old_map,
                |p: TilePos|
                    rect_prefix(
                        p,
                        minimum_x as int,
                        minimum_y as int,
                        maximum_x as int,
                        y + 1,
                        minimum_x as int,
                    ),
                tile_id,
            );
            assert(self@ =~= row_done);
            y = y + 1;
        }
        let ghost target = paint(
            old_map,
            |p: TilePos|
                in_rect(p, minimum_x as int, minimum_y as int, maximum_x as int, maximum_y as int),
            tile_id,
        );
        assert(self@ =~= target);
    }

    /// Discards the layer's content and fills `[0, width) x [0, height)`, each size clamped to
    /// the `i32` range, with one tile.
    pub fn fill_entire(&mut self, width: u32, height: u32, tile_id: u32)
        requires
            old(self).wf(),
        ensures
            final(self).wf(),
            final(self)@ == paint(
                Map::<TilePos, u32>::empty(),
                |p: TilePos|
                    in_rect(p, 0, 0, clamp_to_i32(width) - 1, clamp_to_i32(height) - 1),
                tile_id,
            ),
            final(self).kind_of() == old(self).kind_of(),
            final(self).is_visible() == old(self).is_visible(),
    {
        let width = if width > i32::MAX as u32 {
            i32::MAX as u32
        } else {
            width
        };
        let height = if height > i32::MAX as u32 {
            i32::MAX as u32
        } else {
            height
        };
        self.cells = Vec::new();
        self.positions = HashMap::new();
        let ghost target = paint(
            Map::<TilePos, u32>::empty(),
            |p: TilePos| in_rect(p, 0, 0, width - 1, height - 1),
            tile_id,
        );
        if width == 0 || height == 0 {
            assert(self@ =~= target);
            return ;
        }
        assert(self@ =~= Map::<TilePos, u32>::empty());
        self.paint_rect(0, 0, (width - 1) as i32, (height - 1) as i32, tile_id);
        assert(self@ =~= target);
    }

    /// Builds a layer from stored cells; when several cells share a position the first one
    /// is kept.
    pub fn from_cells(kind: TileLayerKind, visible: bool, cells: Vec<TileCell>) -> (r: Self)
        ensures
            r.wf(),
            r@ == cells_map(cells@),
            r.kind_of() == kind,
            r.is_visible() == visible,
    {
        let mut layer = TileLayer::new(kind);
        layer.visible = visible;
        let mut i: usize = 0;
        while i < cells.len()
            invariant
                layer.wf(),
                layer.kind == kind,
                layer.visible == visible,
                i <= cells@.len(),
                layer@ == cells_map(cells@.subrange(0, i as int)),
            decreases cells@.len() - i,
        {
            let c = cells[i];
            proof {
                assert(cells@.subrange(0, i + 1).drop_last() =~= cells@.subrange(0, i as int));
            }
            if layer.find(c.x, c.y).is_none() {
                layer.set_tile(c.x, c.y, c.tile_id);
            }
            i = i + 1;
        }
        assert(cells@.subrange(0, cells@.len() as int) =~= cells@);
        layer
    }
}

impl Clone for TileLayer {
    fn clone(&self) -> (r: Self)
        ensures
            self.wf() ==> r.wf(),
            r@ == self@,
            r.cell_seq() == self.cell_seq(),
            r.kind_of() == self.kind_of(),
            r.is_visible() == self.is_visible(),
    {
        let mut cells: Vec<TileCell> = Vec::new();
        let mut i: usize = 0;
        while i < self.cells.len()
            invariant
                i <= self.cells@.len(),
                cells@ == self.cells@.subrange(0, i as int),
            decreases self.cells@.len() - i,
        {
            cells.push(self.cells[i]);
            i = i + 1;
        }
        assert(cells@ =~= self.cells@);
        TileLayer {
            kind: self.kind,
            visible: self.visible,
            cells,
            positions: self.positions.clone(),
        }
    }
}


/// Upper bound on the number of positions a flood fill examines.
pub const FILL_LIMIT: usize = 10000;

/// Whether `q` is one of the four grid neighbours of `p`.
pub open spec fn adjacent(p: TilePos, q: TilePos) -> bool {
    (q.1 == p.1 && (q.0 == p.0 + 1 || q.0 == p.0 - 1)) || (q.0 == p.0 && (q.1 == p.1 + 1 || q.1
        == p.1 - 1))
}

/// Whether some position of `region` is a neighbour of `q`.
pub open spec fn touches(region: Set<TilePos>, q: TilePos) -> bool {
    exists|p: TilePos| #[trigger] region.contains(p) && adjacent(p, q)
}

/// The positions where two maps disagree.
pub open spec fn changed_positions(before: Map<TilePos, u32>, after: Map<TilePos, u32>) -> Set<
    TilePos,
> {
    Set::new(|p: TilePos| map_get(after, p) != map_get(before, p))
}

/// Every position of `region` other than `start` has a neighbour in `region` of smaller
/// depth, so `region` is connected to `start`.
pub open spec fn linked_to(region: Set<TilePos>, start: TilePos, depth: Map<TilePos, nat>) -> bool {
    forall|p: TilePos|
        #[trigger] region.contains(p) ==> depth.contains_key(p) && (p != start ==> exists|
            q: TilePos,
        |
            #![trigger region.contains(q)]
            region.contains(q) && adjacent(p, q) && depth.contains_key(q) && depth[q] < depth[p])
}

/// No neighbour of `region` outside of it still holds `target`.
pub open spec fn closed_region(
    region: Set<TilePos>,
    before: Map<TilePos, u32>,
    target: Option<u32>,
) -> bool {
    forall|p: TilePos, q: TilePos|
        #[trigger] region.contains(p) && adjacent(p, q) && map_get(before, q) == target
            ==> #[trigger] region.contains(q)
}

/// At least `FILL_LIMIT` positions lie in `region` or next to it.
pub open spec fn limit_reached(region: Set<TilePos>) -> bool {
    exists|s: Set<TilePos>|
        s.finite() && s.len() == FILL_LIMIT && forall|q: TilePos| #[trigger]
            s.contains(q) ==> region.contains(q) || touches(region, q)
}

/// What a four-way flood fill from `start` with `tile_id` does to a layer: nothing when the
/// start already holds `tile_id`; otherwise it repaints a connected region containing
/// `start`, made only of positions that held what `start` held, of at most `FILL_LIMIT`
/// positions, that is the whole connected area unless the examination limit was reached.
pub open spec fn flood_filled(
    before: Map<TilePos, u32>,
    after: Map<TilePos, u32>,
    start: TilePos,
    tile_id: u32,
) -> bool {
    let target = map_get(before, start);
    let region = changed_positions(before, after);
    if target == Some(tile_id) {
        after == before
    } else {
        &&& forall|p: TilePos|
            #[trigger] region.contains(p) ==> map_get(before, p) == target && map_get(after, p)
                == Some(tile_id)
        &&& region.contains(start)
        &&& region.finite() && region.len() <= FILL_LIMIT
        &&& exists|depth: Map<TilePos, nat>| linked_to(region, start, depth)
        &&& closed_region(region, before, target) || limit_reached(region)
    }
}

/// Whether `q` still waits in `queue` at or after `head`.
pub open spec fn pending(queue: Seq<TilePos>, head: int, q: TilePos) -> bool {
    exists|i: int| head <= i < queue.len() && #[trigger] queue[i] == q
}

/// The neighbours of `(x, y)` inside the `i32` grid, in the order a flood fill queues them:
/// right, left, down, up.
pub open spec fn neighbor_seq(x: i32, y: i32) -> Seq<TilePos> {
    let right: Seq<TilePos> = if x < i32::MAX {
        seq![((x + 1) as i32, y)]
    } else {
        Seq::empty()
    };
    let left: Seq<TilePos> = if x > i32::MIN {
        seq![((x - 1) as i32, y)]
    } else {
        Seq::empty()
    };
    let down: Seq<TilePos> = if y < i32::MAX {
        seq![(x, (y + 1) as i32)]
    } else {
        Seq::empty()
    };
    let up: Seq<TilePos> = if y > i32::MIN {
        seq![(x, (y - 1) as i32)]
    } else {
        Seq::empty()
    };
    right + left + down + up
}

proof fn lemma_neighbor_seq(x: i32, y: i32)
    ensures
        neighbor_seq(x, y).len() <= 4,
        forall|i: int|
            0 <= i < neighbor_seq(x, y).len() ==> adjacent((x, y), #[trigger] neighbor_seq(x, y)[i]),
        forall|q: TilePos| adjacent((x, y), q) ==> #[trigger] neighbor_seq(x, y).contains(q),
{
    let right: Seq<TilePos> = if x < i32::MAX {
        seq![((x + 1) as i32, y)]
    } else {
        Seq::empty()
    };
    let left: Seq<TilePos> = if x > i32::MIN {
        seq![((x - 1) as i32, y)]
    } else {
        Seq::empty()
    };
    let down: Seq<TilePos> = if y < i32::MAX {
        seq![(x, (y + 1) as i32)]
    } else {
        Seq::empty()
    };
    let up: Seq<TilePos> = if y > i32::MIN {
        seq![(x, (y - 1) as i32)]
    } else {
        Seq::empty()
    };
    let s = neighbor_seq(x, y);
    assert(s == right + left + down + up);
    assert forall|q: TilePos| adjacent((x, y), q) implies #[trigger] s.contains(q) by {
        if q.1 == y && q.0 == x + 1 {
            assert(s[0] == q);
        } else if q.1 == y && q.0 == x - 1 {
            assert(s[right.len() as int] == q);
        } else if q.0 == x && q.1 == y + 1 {
            assert(s[(right.len() + left.len()) as int] == q);
        } else {
            assert(s[(right.len() + left.len() + down.len()) as int] == q);
        }
    }
}

/// Queues the in-grid neighbours of `(x, y)`.
fn push_neighbors(queue: &mut Vec<TilePos>, x: i32, y: i32)
    ensures
        final(queue)@ == old(queue)@ + neighbor_seq(x, y),
{
    let ghost start = queue@;
    if x < i32::MAX {
        queue.push((x + 1, y));
    }
    if x > i32::MIN {
        queue.push((x - 1, y));
    }
    if y < i32::MAX {
        queue.push((x, y + 1));
    }
    if y > i32::MIN {
        queue.push((x, y - 1));
    }
    assert(queue@ =~= start + neighbor_seq(x, y));
}

/// Bookkeeping facts that hold between the steps of a flood fill.
#[verifier::opaque]
spec fn fill_state_ok(
    old_map: Map<TilePos, u32>,
    start: TilePos,
    old_tile: Option<u32>,
    queue: Seq<TilePos>,
    head: int,
    vis: Set<TilePos>,
    changed: Set<TilePos>,
    depth: Map<TilePos, nat>,
    count: nat,
    capped: bool,
) -> bool {
    &&& 0 <= head <= queue.len()
    &&& queue.len() >= 1
    &&& queue[0] == start
    &&& head >= 1 ==> changed.contains(start)
    &&& head == 0 ==> vis.is_empty() && changed.is_empty()
    &&& vis.finite()
    &&& vis.len() <= FILL_LIMIT
    &&& changed.subset_of(vis)
    &&& changed.finite()
    &&& forall|p: TilePos| #[trigger] changed.contains(p) ==> map_get(old_map, p) == old_tile
    &&& forall|p: TilePos| #[trigger]
        vis.contains(p) ==> changed.contains(p) || map_get(old_map, p) != old_tile
    &&& forall|p: TilePos| #[trigger] vis.contains(p) ==> changed.contains(p) || touches(changed, p)
    &&& forall|i: int| 1 <= i < queue.len() ==> touches(changed, #[trigger] queue[i])
    &&& linked_to(changed, start, depth)
    &&& forall|p: TilePos| #[trigger] depth.contains_key(p) ==> depth[p] < count
    &&& capped ==> vis.len() == FILL_LIMIT
    &&& forall|p: TilePos, q: TilePos|
        #[trigger] changed.contains(p) && #[trigger] adjacent(p, q) ==> capped || vis.contains(q)
            || pending(queue, head, q)
}

proof fn lemma_fill_start(old_map: Map<TilePos, u32>, start: TilePos, old_tile: Option<u32>)
    ensures
        fill_state_ok(
            old_map,
            start,
            old_tile,
            seq![start],
            0,
            Set::empty(),
            Set::empty(),
            Map::empty(),
            0,
            false,
        ),
{
    reveal(fill_state_ok);
}

/// Dropping the head of the queue keeps everything still waiting behind it pending.
proof fn lemma_pending_advance(queue: Seq<TilePos>, head: int, q: TilePos)
    requires
        0 <= head < queue.len(),
        pending(queue, head, q),
        q != queue[head],
    ensures
        pending(queue, head + 1, q),
{
    let i = choose|i: int| head <= i < queue.len() && #[trigger] queue[i] == q;
    assert(i != head);
}

/// A popped position that is skipped, because it was already examined or because the
/// examination limit is reached.
proof fn lemma_fill_skip(
    old_map: Map<TilePos, u32>,
    start: TilePos,
    old_tile: Option<u32>,
    queue: Seq<TilePos>,
    head: int,
    vis: Set<TilePos>,
    changed: Set<TilePos>,
    depth: Map<TilePos, nat>,
    count: nat,
    capped: bool,
    now_capped: bool,
)
    requires
        fill_state_ok(old_map, start, old_tile, queue, head, vis, changed, depth, count, capped),
        head < queue.len(),
        vis.contains(queue[head]) || (now_capped && vis.len() == FILL_LIMIT),
        capped ==> now_capped,
        now_capped ==> vis.len() == FILL_LIMIT,
        head >= 1,
    ensures
        fill_state_ok(
            old_map,
            start,
            old_tile,
            queue,
            head + 1,
            vis,
            changed,
            depth,
            count,
            now_capped,
        ),
{
    reveal(fill_state_ok);
    assert forall|p: TilePos, q: TilePos|
        #[trigger] changed.contains(p) && #[trigger] adjacent(p, q) implies now_capped
            || vis.contains(q) || pending(queue, head + 1, q) by {
        if !now_capped && !vis.contains(q) {
            assert(pending(queue, head, q));
            lemma_pending_advance(queue, head, q);
        }
    }
}

/// A popped position examined for the first time that does not hold the filled tile.
proof fn lemma_fill_reject(
    old_map: Map<TilePos, u32>,
    start: TilePos,
    old_tile: Option<u32>,
    queue: Seq<TilePos>,
    head: int,
    vis: Set<TilePos>,
    changed: Set<TilePos>,
    depth: Map<TilePos, nat>,
    count: nat,
    capped: bool,
)
    requires
        fill_state_ok(old_map, start, old_tile, queue, head, vis, changed, depth, count, capped),
        head < queue.len(),
        !vis.contains(queue[head]),
        vis.len() < FILL_LIMIT,
        !changed.contains(queue[head]),
        map_get(old_map, queue[head]) != old_tile,
        head >= 1,
    ensures
        fill_state_ok(
            old_map,
            start,
            old_tile,
            queue,
            head + 1,
            vis.insert(queue[head]),
            changed,
            depth,
            count,
            capped,
        ),
{
    reveal(fill_state_ok);
    let popped = queue[head];
    let vis2 = vis.insert(popped);
    assert(touches(changed, queue[head]));
    assert forall|p: TilePos| #[trigger] vis2.contains(p) implies changed.contains(p) || touches(
        changed,
        p,
    ) by {}
    assert forall|p: TilePos, q: TilePos|
        #[trigger] changed.contains(p) && #[trigger] adjacent(p, q) implies capped
            || vis2.contains(q) || pending(queue, head + 1, q) by {
        if !capped && !vis2.contains(q) {
            assert(pending(queue, head, q));
            lemma_pending_advance(queue, head, q);
        }
    }
}

/// A popped position examined for the first time that holds the filled tile: it is
/// repainted and its neighbours are queued.
proof fn lemma_fill_accept(
    old_map: Map<TilePos, u32>,
    start: TilePos,
    old_tile: Option<u32>,
    queue: Seq<TilePos>,
    head: int,
    vis: Set<TilePos>,
    changed: Set<TilePos>,
    depth: Map<TilePos, nat>,
    count: nat,
    capped: bool,
)
    requires
        fill_state_ok(old_map, start, old_tile, queue, head, vis, changed, depth, count, capped),
        head < queue.len(),
        !vis.contains(queue[head]),
        vis.len() < FILL_LIMIT,
        map_get(old_map, queue[head]) == old_tile,
    ensures
        fill_state_ok(
            old_map,
            start,
            old_tile,
            queue + neighbor_seq(queue[head].0, queue[head].1),
            head + 1,
            vis.insert(queue[head]),
            changed.insert(queue[head]),
            depth.insert(queue[head], count),
            count + 1,
            capped,
        ),
{
    reveal(fill_state_ok);
    let popped = queue[head];
    let (x, y) = popped;
    let ns = neighbor_seq(x, y);
    let queue2 = queue + ns;
    let vis2 = vis.insert(popped);
    let changed2 = changed.insert(popped);
    let depth2 = depth.insert(popped, count);
    lemma_neighbor_seq(x, y);
    assert(!changed.contains(popped));
    if head == 0 {
        assert(popped == start);
    } else {
        assert(touches(changed, queue[head]));
    }
    assert(queue2[0] == start);
    assert forall|p: TilePos| #[trigger] changed2.contains(p) implies depth2.contains_key(p) && (p
        != start ==> exists|q: TilePos|
        #![trigger changed2.contains(q)]
        changed2.contains(q) && adjacent(p, q) && depth2.contains_key(q) && depth2[q] < depth2[p]) by {
        if p == popped {
            if p != start {
                assert(head != 0);
                let q = choose|q: TilePos| #[trigger] changed.contains(q) && adjacent(q, popped);
                assert(changed2.contains(q) && adjacent(p, q));
                assert(depth2[q] < depth2[p]);
            }
        } else {
            assert(changed.contains(p));
            if p != start {
                let q = choose|q: TilePos|
                    #![trigger changed.contains(q)]
                    changed.contains(q) && adjacent(p, q) && depth.contains_key(q) && depth[q]
                        < depth[p];
                assert(changed2.contains(q));
            }
        }
    }
    assert forall|p: TilePos| #[trigger] vis2.contains(p) implies changed2.contains(p) || touches(
        changed2,
        p,
    ) by {
        if !changed2.contains(p) {
            assert(vis.contains(p));
            let q = choose|q: TilePos| #[trigger] changed.contains(q) && adjacent(q, p);
            assert(changed2.contains(q));
        }
    }
    assert forall|i: int| 1 <= i < queue2.len() implies touches(changed2, #[trigger] queue2[i]) by {
        if i < queue.len() {
            assert(queue2[i] == queue[i]);
            let q = choose|q: TilePos| #[trigger] changed.contains(q) && adjacent(q, queue[i]);
            assert(changed2.contains(q));
        } else {
            assert(ns[i - queue.len()] == queue2[i]);
            assert(changed2.contains(popped) && adjacent(popped, queue2[i]));
        }
    }
    assert forall|p: TilePos, q: TilePos|
        #[trigger] changed2.contains(p) && #[trigger] adjacent(p, q) implies capped
            || vis2.contains(q) || pending(queue2, head + 1, q) by {
        if p == popped {
            assert(ns.contains(q));
            let j = choose|j: int| 0 <= j < ns.len() && ns[j] == q;
            assert(queue2[queue.len() + j] == q);
        } else {
            assert(changed.contains(p));
            if !capped && !vis2.contains(q) {
                assert(pending(queue, head, q));
                lemma_pending_advance(queue, head, q);
                let i = choose|i: int| head + 1 <= i < queue.len() && #[trigger] queue[i] == q;
                assert(queue2[i] == q);
            }
        }
    }
}

/// When the queue is exhausted the repainted region has all properties of a flood fill.
proof fn lemma_fill_finish(
    old_map: Map<TilePos, u32>,
    start: TilePos,
    old_tile: Option<u32>,
    queue: Seq<TilePos>,
    head: int,
    vis: Set<TilePos>,
    changed: Set<TilePos>,
    depth: Map<TilePos, nat>,
    count: nat,
    capped: bool,
)
    requires
        fill_state_ok(old_map, start, old_tile, queue, head, vis, changed, depth, count, capped),
        head == queue.len(),
    ensures
        changed.contains(start),
        changed.finite(),
        changed.len() <= FILL_LIMIT,
        forall|p: TilePos| #[trigger] changed.contains(p) ==> map_get(old_map, p) == old_tile,
        exists|d: Map<TilePos, nat>| linked_to(changed, start, d),
        closed_region(changed, old_map, old_tile) || limit_reached(changed),
{
    reveal(fill_state_ok);
    lemma_len_subset(changed, vis);
    assert(linked_to(changed, start, depth));
    if !capped {
        assert forall|p: TilePos, q: TilePos|
            #[trigger] changed.contains(p) && adjacent(p, q) && map_get(old_map, q) == old_tile
                implies #[trigger] changed.contains(q) by {
            assert(adjacent(p, q));
            if !vis.contains(q) {
                assert(pending(queue, head, q));
            }
        }
    } else {
        assert forall|q: TilePos| #[trigger] vis.contains(q) implies changed.contains(q) || touches(
            changed,
            q,
        ) by {}
        assert(limit_reached(changed));
    }
}

impl TileLayer {
    /// Four-way flood fill from a start position, examining at most `FILL_LIMIT` positions.
    pub fn fill(&mut self, start_x: i32, start_y: i32, tile_id: u32)
        requires
            old(self).wf(),
        ensures
            final(self).wf(),
            flood_filled(old(self)@, final(self)@, (start_x, start_y), tile_id),
            final(self).kind_of() == old(self).kind_of(),
            final(self).is_visible() == old(self).is_visible(),
    {
        let ghost old_map = self@;
        let ghost kind = self.kind;
        let ghost visible = self.visible;
        let ghost start: TilePos = (start_x, start_y);
        let old_tile = self.tile_at(start_x, start_y);
        match old_tile {
            Some(t) => {
                if t == tile_id {
                    return ;
                }
            },
            None => {},
        }
        let mut queue: Vec<TilePos> = Vec::new();
        queue.push((start_x, start_y));
        let mut head: usize = 0;
        let mut visited: HashSet<u64> = HashSet::new();
        let ghost mut vis: Set<TilePos> = Set::empty();
        let ghost mut changed: Set<TilePos> = Set::empty();
        let ghost mut depth: Map<TilePos, nat> = Map::empty();
        let ghost mut count: nat = 0;
        let ghost mut capped: bool = false;
        proof {
            assert(queue@ =~= seq![start]);
            lemma_fill_start(old_map, start, old_tile);
            assert(self@ =~= paint(old_map, |p: TilePos| changed.contains(p), tile_id));
        }
        while head < queue.len()
            invariant
                self.wf(),
                self.kind == kind,
                self.visible == visible,
                old_tile == map_get(old_map, start),
                old_tile != Some(tile_id),
                fill_state_ok(
                    old_map,
                    start,
                    old_tile,
                    queue@,
                    head as int,
                    vis,
                    changed,
                    depth,
                    count,
                    capped,
                ),
                head <= queue@.len(),
                vis.finite(),
                vis.len() <= FILL_LIMIT,
                changed.subset_of(vis),
                vis.len() == visited@.len(),
                visited@.finite(),
                forall|p: TilePos| #[trigger]
                    vis.contains(p) <==> visited@.contains(cell_key(p.0, p.1)),
                self@ == paint(old_map, |p: TilePos| changed.contains(p), tile_id),
            decreases 4 * (FILL_LIMIT - vis.len()) + queue@.len() - head,
        {
            let (x, y) = queue[head];
            let ghost popped: TilePos = (x, y);
            if visited.len() >= FILL_LIMIT {
                proof {
                    reveal(fill_state_ok);
                    lemma_fill_skip(
                        old_map,
                        start,
                        old_tile,
                        queue@,
                        head as int,
                        vis,
                        changed,
                        depth,
                        count,
                        capped,
                        true,
                    );
                    capped = true;
                }
                head = head + 1;
                continue;
            }
            let k = key_of(x, y);
            let inserted = visited.insert(k);
            if !inserted {
                proof {
                    reveal(fill_state_ok);
                    lemma_fill_skip(
                        old_map,
                        start,
                        old_tile,
                        queue@,
                        head as int,
                        vis,
                        changed,
                        depth,
                        count,
                        capped,
                        capped,
                    );
                }
                head = head + 1;
                continue;
            }
            proof {
                assert(!vis.contains(popped));
                vis = vis.insert(popped);
                assert forall|p: TilePos| #[trigger] vis.contains(p) <==> visited@.contains(
                    cell_key(p.0, p.1),
                ) by {
                    lemma_cell_key_injective(p.0, p.1, x, y);
                }
            }
            let current = self.tile_at(x, y);
            let same = match (current, old_tile) {
                (Some(a), Some(b)) => a == b,
                (None, None) => true,
                _ => false,
            };
            if !same {
                proof {
                    reveal(fill_state_ok);
                    lemma_fill_reject(
                        old_map,
                        start,
                        old_tile,
                        queue@,
                        head as int,
                        vis.remove(popped),
                        changed,
                        depth,
                        count,
                        capped,
                    );
                    assert(vis.remove(popped).insert(popped) =~= vis);
                }
                head = head + 1;
                continue;
            }
            self.set_tile(x, y, tile_id);
            let ghost queue_before = queue@;
            push_neighbors(&mut queue, x, y);
            proof {
                reveal(fill_state_ok);
                let vis0 = vis.remove(popped);
                assert(vis0.insert(popped) =~= vis);
                lemma_fill_accept(
                    old_map,
                    start,
                    old_tile,
                    queue_before,
                    head as int,
                    vis0,
                    changed,
                    depth,
                    count,
                    capped,
                );
                changed = changed.insert(popped);
                depth = depth.insert(popped, count);
                count = count + 1;
                lemma_neighbor_seq(x, y);
                assert(self@ =~= paint(old_map, |p: TilePos| changed.contains(p), tile_id));
            }
            head = head + 1;
        }
        proof {
            lemma_fill_finish(
                old_map,
                start,
                old_tile,
                queue@,
                head as int,
                vis,
                changed,
                depth,
                count,
                capped,
            );
            let region = changed_positions(old_map, self@);
            assert(region =~= changed);
        }
    }
}


impl TileLayerKind {
    /// The translation key of the layer's display name.
    pub open spec fn name_key(self) -> Seq<char> {
        match self {
            TileLayerKind::Ground => "tile.ground"@,
            TileLayerKind::Decoration => "tile.decoration"@,
            TileLayerKind::Collision => "tile.collision"@,
        }
    }

    /// Returns the translated display name of the layer.
    pub fn display_name(self, localization: &LocalizationState) -> (r: String)
        ensures
            r@ == translate(
                localization.language,
                localization.chinese@,
                localization.english@,
                self.name_key(),
            ),
    {
        match self {
            TileLayerKind::Ground => tr(localization, "tile.ground"),
            TileLayerKind::Decoration => tr(localization, "tile.decoration"),
            TileLayerKind::Collision => tr(localization, "tile.collision"),
        }
    }
}

/// Default map width in cells.
pub const DEFAULT_MAP_WIDTH: u32 = 100;

/// Default map height in cells.
pub const DEFAULT_MAP_HEIGHT: u32 = 100;

/// A scene's complete tile map.
pub struct TileMap {
    pub tileset_path: String,
    /// Copy of the tile set embedded in the scene so collision and transparency flags travel
    /// with it.
    pub tileset: Option<TileSet>,
    pub tile_width: u32,
    pub tile_height: u32,
    pub map_width: u32,
    pub map_height: u32,
    pub layers: Vec<TileLayer>,
}

impl TileMap {
    /// Every layer of the map is well formed.
    pub open spec fn wf(&self) -> bool {
        forall|i: int| 0 <= i < self.layers@.len() ==> (#[trigger] self.layers@[i]).wf()
    }

    /// Creates an empty map with a ground, a decoration and a collision layer, in that
    /// order, 32x32 pixel cells and a 100x100 cell area.
    pub fn new() -> (r: Self)
        ensures
            r.wf(),
            r.tileset_path@ == Seq::<char>::empty(),
            r.tileset is None,
            r.tile_width == 32,
            r.tile_height == 32,
            r.map_width == DEFAULT_MAP_WIDTH,
            r.map_height == DEFAULT_MAP_HEIGHT,
            r.layers@.len() == 3,
            r.layers@[0].kind_of() == TileLayerKind::Ground,
            r.layers@[1].kind_of() == TileLayerKind::Decoration,
            r.layers@[2].kind_of() == TileLayerKind::Collision,
            forall|i: int|
                0 <= i < 3 ==> (#[trigger] r.layers@[i])@ == Map::<TilePos, u32>::empty()
                    && r.layers@[i].is_visible(),
    {
        let mut layers: Vec<TileLayer> = Vec::new();
        layers.push(TileLayer::new(TileLayerKind::Ground));
        layers.push(TileLayer::new(TileLayerKind::Decoration));
        layers.push(TileLayer::new(TileLayerKind::Collision));
        TileMap {
            tileset_path: String::new(),
            tileset: None,
            tile_width: 32,
            tile_height: 32,
            map_width: DEFAULT_MAP_WIDTH,
            map_height: DEFAULT_MAP_HEIGHT,
            layers,
        }
    }

    /// Index of the first layer of a kind.
    fn layer_index(&self, kind: TileLayerKind) -> (r: Option<usize>)
        ensures
            match r {
                Some(i) => i < self.layers@.len() && self.layers@[i as int].kind_of() == kind
                    && forall|j: int| 0 <= j < i ==> #[trigger] self.layers@[j].kind_of() != kind,
                None => forall|j: int|
                    0 <= j < self.layers@.len() ==> #[trigger] self.layers@[j].kind_of() != kind,
            },
    {
        let mut i: usize = 0;
        while i < self.layers.len()
            invariant
                i <= self.layers@.len(),
                forall|j: int| 0 <= j < i ==> #[trigger] self.layers@[j].kind_of() != kind,
            decreases self.layers@.len() - i,
        {
            if self.layers[i].kind == kind {
                return Some(i);
            }
            i = i + 1;
        }
        None
    }

    /// Returns the first layer of a kind.
    pub fn layer(&self, kind: TileLayerKind) -> (r: Option<&TileLayer>)
        ensures
            match r {
                Some(l) => exists|i: int|
                    0 <= i < self.layers@.len() && self.layers@[i] == *l && l.kind_of() == kind
                        && forall|j: int|
                        0 <= j < i ==> #[trigger] self.layers@[j].kind_of() != kind,
                None => forall|j: int|
                    0 <= j < self.layers@.len() ==> #[trigger] self.layers@[j].kind_of() != kind,
            },
    {
        match self.layer_index(kind) {
            Some(i) => Some(&self.layers[i]),
            None => None,
        }
    }

    /// Returns the first layer of a kind for modification.
    pub fn layer_mut(&mut self, kind: TileLayerKind) -> (r: Option<&mut TileLayer>)
        ensures
            match r {
                Some(l) => exists|i: int|
                    0 <= i < old(self).layers@.len() && old(self).layers@[i] == *l
                        && l.kind_of() == kind && (forall|j: int|
                        0 <= j < i ==> #[trigger] old(self).layers@[j].kind_of() != kind)
                        && final(self).layers@ == old(self).layers@.update(i, *final(l))
                        && final(self).tileset_path == old(self).tileset_path
                        && final(self).tileset == old(self).tileset
                        && final(self).tile_width == old(self).tile_width
                        && final(self).tile_height == old(self).tile_height
                        && final(self).map_width == old(self).map_width
                        && final(self).map_height == old(self).map_height,
                None => (forall|j: int|
                    0 <= j < old(self).layers@.len() ==> #[trigger] old(self).layers@[j].kind_of()
                        != kind) && *final(self) == *old(self),
            },
    {
        match self.layer_index(kind) {
            Some(i) => Some(&mut self.layers[i]),
            None => None,
        }
    }
}

/// A map size as the editor reads it as an `i32`: sizes above `i32::MAX` wrap to negative.
pub open spec fn wrapped_size(v: u32) -> int {
    if v <= i32::MAX {
        v as int
    } else {
        v - 0x1_0000_0000
    }
}

/// Whether a layer is the first of its kind in a list.
pub open spec fn first_of_kind(layers: Seq<TileLayer>, j: int, kind: TileLayerKind) -> bool {
    layers[j].kind_of() == kind && forall|k: int| 0 <= k < j ==> #[trigger] layers[k].kind_of() != kind
}

/// The smaller of two integers.
pub open spec fn min_int(a: int, b: int) -> int {
    if a <= b {
        a
    } else {
        b
    }
}

/// The larger of two integers.
pub open spec fn max_int(a: int, b: int) -> int {
    if a >= b {
        a
    } else {
        b
    }
}

impl TileMap {
    /// Paints the rectangle spanned by two corners, clipped to the map, with one tile on the
    /// first layer of a kind.
    pub fn paint_rectangle(
        &mut self,
        kind: TileLayerKind,
        start_x: i32,
        start_y: i32,
        end_x: i32,
        end_y: i32,
        tile_id: u32,
    )
        requires
            old(self).wf(),
            old(self).map_width != 0x8000_0000,
            old(self).map_height != 0x8000_0000,
        ensures
            final(self).wf(),
            final(self).layers@.len() == old(self).layers@.len(),
            forall|j: int|
                0 <= j < old(self).layers@.len() ==> if first_of_kind(old(self).layers@, j, kind) {
                    &&& (#[trigger] final(self).layers@[j])@ == paint(
                        old(self).layers@[j]@,
                        |p: TilePos|
                            in_rect(
                                p,
                                max_int(min_int(start_x as int, end_x as int), 0),
                                max_int(min_int(start_y as int, end_y as int), 0),
                                min_int(
                                    max_int(start_x as int, end_x as int),
                                    wrapped_size(old(self).map_width) - 1,
                                ),
                                min_int(
                                    max_int(start_y as int, end_y as int),
                                    wrapped_size(old(self).map_height) - 1,
                                ),
                            ),
                        tile_id,
                    )
                    &&& final(self).layers@[j].kind_of() == kind
                    &&& final(self).layers@[j].is_visible() == old(self).layers@[j].is_visible()
                } else {
                    final(self).layers@[j] == old(self).layers@[j]
                },
            final(self).tileset_path == old(self).tileset_path,
            final(self).tileset == old(self).tileset,
            final(self).map_width == old(self).map_width,
            final(self).map_height == old(self).map_height,
    {
        let min_x: i32 = if start_x <= end_x { start_x } else { end_x };
        let min_x: i32 = if min_x >= 0 { min_x } else { 0 };
        let min_y: i32 = if start_y <= end_y { start_y } else { end_y };
        let min_y: i32 = if min_y >= 0 { min_y } else { 0 };
        let width: i64 = if self.map_width <= i32::MAX as u32 {
            self.map_width as i64
        } else {
            self.map_width as i64 - 0x1_0000_0000
        };
        let height: i64 = if self.map_height <= i32::MAX as u32 {
            self.map_height as i64
        } else {
            self.map_height as i64 - 0x1_0000_0000
        };
        let far_x: i64 = if start_x >= end_x { start_x as i64 } else { end_x as i64 };
        let far_y: i64 = if start_y >= end_y { start_y as i64 } else { end_y as i64 };
        let max_x: i64 = if far_x <= width - 1 { far_x } else { width - 1 };
        let max_y: i64 = if far_y <= height - 1 { far_y } else { height - 1 };
        match self.layer_index(kind) {
            Some(i) => {
                let mut layer = self.layers.remove(i);
                let ghost before = layer;
                assert(old(self).layers@[i as int] == before);
                layer.replace_rect(min_x, min_y, max_x as i32, max_y as i32, tile_id);
                self.layers.insert(i, layer);
                proof {
                    assert(self.layers@ =~= old(self).layers@.update(i as int, layer));
                    assert forall|j: int| 0 <= j < self.layers@.len() implies (#[trigger] self.layers@[j]).wf() by {
                        if j != i {
                            assert(self.layers@[j] == old(self).layers@[j]);
                        }
                    }
                    assert forall|j: int| 0 <= j < old(self).layers@.len() && j != i implies !first_of_kind(
                        old(self).layers@,
                        j,
                        kind,
                    ) by {
                        if j > i {
                            assert(old(self).layers@[i as int].kind_of() == kind);
                        }
                    }
                }
            },
            None => {},
        }
    }

    /// Discards the first layer of a kind and fills the whole map, at most 2000 cells in
    /// each direction, with one tile.
    pub fn fill_layer(&mut self, kind: TileLayerKind, tile_id: u32)
        requires
            old(self).wf(),
        ensures
            final(self).wf(),
            final(self).layers@.len() == old(self).layers@.len(),
            forall|j: int|
                0 <= j < old(self).layers@.len() ==> if first_of_kind(old(self).layers@, j, kind) {
                    &&& (#[trigger] final(self).layers@[j])@ == paint(
                        Map::<TilePos, u32>::empty(),
                        |p: TilePos|
                            in_rect(
                                p,
                                0,
                                0,
                                min_int(old(self).map_width as int, 2000) - 1,
                                min_int(old(self).map_height as int, 2000) - 1,
                            ),
                        tile_id,
                    )
                    &&& final(self).layers@[j].kind_of() == kind
                    &&& final(self).layers@[j].is_visible() == old(self).layers@[j].is_visible()
                } else {
                    final(self).layers@[j] == old(self).layers@[j]
                },
            final(self).tileset_path == old(self).tileset_path,
            final(self).tileset == old(self).tileset,
            final(self).map_width == old(self).map_width,
            final(self).map_height == old(self).map_height,
    {
        let width: u32 = if self.map_width <= 2000 { self.map_width } else { 2000 };
        let height: u32 = if self.map_height <= 2000 { self.map_height } else { 2000 };
        match self.layer_index(kind) {
            Some(i) => {
                let mut layer = self.layers.remove(i);
                assert(old(self).layers@[i as int] == layer);
                layer.fill_entire(width, height, tile_id);
                self.layers.insert(i, layer);
                proof {
                    assert(self.layers@ =~= old(self).layers@.update(i as int, layer));
                    assert forall|j: int| 0 <= j < self.layers@.len() implies (#[trigger] self.layers@[j]).wf() by {
                        if j != i {
                            assert(self.layers@[j] == old(self).layers@[j]);
                        }
                    }
                    assert forall|j: int| 0 <= j < old(self).layers@.len() && j != i implies !first_of_kind(
                        old(self).layers@,
                        j,
                        kind,
                    ) by {
                        if j > i {
                            assert(old(self).layers@[i as int].kind_of() == kind);
                        }
                    }
                }
            },
            None => {},
        }
    }
}

/// The tile painting tools.
#[derive(Clone, Copy, PartialEq, Eq, Structural, Debug)]
pub enum TileTool {
    Select,
    Brush,
    Eraser,
    Fill,
    Rectangle,
}

/// State of the editor's tile tool panel.
pub struct TileEditorState {
    pub window_open: bool,
    pub tool: TileTool,
    pub active_layer: TileLayerKind,
    pub selected_tile_id: u32,
    pub selected_tileset: Option<TileSet>,
    pub selected_tileset_path: Option<String>,
    pub new_tile_width: u32,
    pub new_tile_height: u32,
    pub rectangle_start: Option<(i32, i32)>,
}

impl TileEditorState {
    /// The closed panel with the selection tool on the ground layer and 32x32 new tiles.
    pub fn new() -> (r: Self)
        ensures
            !r.window_open,
            r.tool == TileTool::Select,
            r.active_layer == TileLayerKind::Ground,
            r.selected_tile_id == 0,
            r.selected_tileset is None,
            r.selected_tileset_path is None,
            r.new_tile_width == 32,
            r.new_tile_height == 32,
            r.rectangle_start is None,
    {
        TileEditorState {
            window_open: false,
            tool: TileTool::Select,
            active_layer: TileLayerKind::Ground,
            selected_tile_id: 0,
            selected_tileset: None,
            selected_tileset_path: None,
            new_tile_width: 32,
            new_tile_height: 32,
            rectangle_start: None,
        }
    }
}

/// Whether `path` walks from `start` to `p` through grid neighbours, every step on a
/// position that held `target` before.
pub open spec fn fill_path(
    path: Seq<TilePos>,
    start: TilePos,
    p: TilePos,
    before: Map<TilePos, u32>,
    target: Option<u32>,
) -> bool {
    &&& path.len() >= 1
    &&& path[0] == start
    &&& path.last() == p
    &&& forall|i: int| 0 <= i < path.len() ==> map_get(before, #[trigger] path[i]) == target
    &&& forall|i: int| 0 <= i < path.len() - 1 ==> adjacent(#[trigger] path[i], path[i + 1])
}

proof fn lemma_linked_path(
    region: Set<TilePos>,
    start: TilePos,
    depth: Map<TilePos, nat>,
    p: TilePos,
    before: Map<TilePos, u32>,
    target: Option<u32>,
) -> (path: Seq<TilePos>)
    requires
        linked_to(region, start, depth),
        region.contains(p),
        forall|q: TilePos| #[trigger] region.contains(q) ==> map_get(before, q) == target,
    ensures
        fill_path(path, start, p, before, target),
    decreases depth[p],
{
    if p == start {
        seq![start]
    } else {
        let q = choose|q: TilePos|
            #![trigger region.contains(q)]
            region.contains(q) && adjacent(p, q) && depth.contains_key(q) && depth[q] < depth[p];
        let prefix = lemma_linked_path(region, start, depth, q, before, target);
        let path = prefix.push(p);
        assert forall|i: int| 0 <= i < path.len() implies map_get(before, #[trigger] path[i]) == target by {
            if i < prefix.len() {
                assert(path[i] == prefix[i]);
            }
        }
        assert forall|i: int| 0 <= i < path.len() - 1 implies adjacent(#[trigger] path[i], path[i + 1]) by {
            if i < prefix.len() - 1 {
                assert(path[i] == prefix[i] && path[i + 1] == prefix[i + 1]);
            } else {
                assert(path[i] == q && path[i + 1] == p);
            }
        }
        path
    }
}

/// A flood fill changes nothing when the start already holds the tile; otherwise every
/// position it changes now holds the tile, held what the start held, and is reached from the
/// start through neighbours that all held it too; every other position keeps its tile, and
/// at most `FILL_LIMIT` positions change.
pub proof fn law_fill_changes_connected_cells(
    before: Map<TilePos, u32>,
    after: Map<TilePos, u32>,
    start: TilePos,
    tile_id: u32,
)
    requires
        flood_filled(before, after, start, tile_id),
    ensures
        map_get(before, start) == Some(tile_id) ==> after == before,
        forall|p: TilePos|
            map_get(after, p) != map_get(before, p) ==> map_get(before, p) == map_get(before, start)
                && map_get(after, p) == Some(tile_id) && exists|path: Seq<TilePos>|
                fill_path(path, start, p, before, map_get(before, start)),
        changed_positions(before, after).finite(),
        changed_positions(before, after).len() <= FILL_LIMIT,
{
    let target = map_get(before, start);
    let region = changed_positions(before, after);
    if target == Some(tile_id) {
        assert(region =~= Set::<TilePos>::empty());
    } else {
        let depth = choose|depth: Map<TilePos, nat>| linked_to(region, start, depth);
        assert forall|p: TilePos|
            map_get(after, p) != map_get(before, p) implies map_get(before, p) == target && map_get(
                after,
                p,
            ) == Some(tile_id) && exists|path: Seq<TilePos>| fill_path(path, start, p, before, target) by {
            assert(region.contains(p));
            let path = lemma_linked_path(region, start, depth, p, before, target);
        }
    }
}

/// Reading a cell after painting it gives the painted tile, and every other cell reads as
/// before.
pub proof fn law_paint_then_read(tiles: Map<TilePos, u32>, p: TilePos, tile_id: u32, q: TilePos)
    ensures
        map_get(tiles.insert(p, tile_id), q) == if q == p {
            Some(tile_id)
        } else {
            map_get(tiles, q)
        },
{
}

/// Reading a cell after erasing it gives nothing, and every other cell reads as before.
pub proof fn law_erase_then_read(tiles: Map<TilePos, u32>, p: TilePos, q: TilePos)
    ensures
        map_get(tiles.remove(p), q) == if q == p {
            None
        } else {
            map_get(tiles, q)
        },
{
}

/// Erasing a cell undoes painting it: the layer reads as the layer before with that cell
/// erased.
pub proof fn law_erase_undoes_paint(tiles: Map<TilePos, u32>, p: TilePos, tile_id: u32)
    ensures
        tiles.insert(p, tile_id).remove(p) == tiles.remove(p),
        !tiles.contains_key(p) ==> tiles.insert(p, tile_id).remove(p) == tiles,
{
    assert(tiles.insert(p, tile_id).remove(p) =~= tiles.remove(p));
    if !tiles.contains_key(p) {
        assert(tiles.remove(p) =~= tiles);
    }
}

/// Painting the same tile twice is painting it once.
pub proof fn law_paint_idempotent(tiles: Map<TilePos, u32>, p: TilePos, tile_id: u32)
    ensures
        tiles.insert(p, tile_id).insert(p, tile_id) == tiles.insert(p, tile_id),
{
    assert(tiles.insert(p, tile_id).insert(p, tile_id) =~= tiles.insert(p, tile_id));
}

} // verus!
