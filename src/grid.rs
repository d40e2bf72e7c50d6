use vstd::prelude::*;
use crate::boundary::{MAX_GRID_SIDE, boundary, grid_fits, merge_boundary};
use crate::geometry::{Point, Segment, TILE_WIDTH, pt};
use crate::text::{
    chars_of, door_costs, header_of, lemma_split_nonempty, lemma_split_sizes, parse_door_costs,
    rows_of, split_chars, split_on, views,
};

verus! {

/// What a tile of the map is.
#[derive(Clone, Copy, Debug, PartialEq, Eq, Structural)]
pub enum TileType {
    Floor,
    Wall,
    Door,
    Gold,
    Health,
    Warp,
    Exit,
    Spikes,
}

/// An interactive thing placed on the map, at the world position of its tile.
#[derive(Clone, Copy, Debug, PartialEq, Eq, Structural)]
pub enum CaveObject {
    Gold(Point),
    /// A door and the gold it costs.
    Door(Point, i32),
    Health(Point),
}

/// Why a grid text could not be compiled.
#[derive(Clone, Copy, Debug, PartialEq, Eq, Structural)]
pub enum ParseError {
    /// A token of the door-cost line is not a decimal `i32`.
    BadDoorCost,
    /// The grid holds more doors than the door-cost line lists costs.
    MissingDoorCost,
}

/// The tile kind a grid character stands for; other characters leave the tile empty.
pub open spec fn tile_of_char(c: char) -> Option<TileType> {
    if c == 'w' {
        Some(TileType::Wall)
    } else if c == '.' || c == 'b' || c == 'p' {
        Some(TileType::Floor)
    } else if c == 'g' {
        Some(TileType::Gold)
    } else if c == 'd' {
        Some(TileType::Door)
    } else if c == 's' {
        Some(TileType::Spikes)
    } else if c == 'h' {
        Some(TileType::Health)
    } else {
        None
    }
}

pub open spec fn tiles_of(rows: Seq<Seq<char>>) -> Seq<Seq<Option<TileType>>> {
    rows.map_values(|r: Seq<char>| r.map_values(|c: char| tile_of_char(c)))
}

/// World position of the top-left corner of tile `(x, y)`.
pub open spec fn world(x: int, y: int) -> Point {
    pt(x * TILE_WIDTH, y * TILE_WIDTH)
}

pub open spec fn count_doors(row: Seq<char>) -> nat
    decreases row.len(),
{
    if row.len() == 0 {
        0
    } else {
        count_doors(row.drop_last()) + if row.last() == 'd' {
            1nat
        } else {
            0nat
        }
    }
}

/// Number of door tiles in all the rows.
pub open spec fn door_total(rows: Seq<Seq<char>>) -> nat
    decreases rows.len(),
{
    if rows.len() == 0 {
        0
    } else {
        door_total(rows.drop_last()) + count_doors(rows.last())
    }
}

/// The object that character `c` places at `p`; a door takes cost number `door`.
pub open spec fn object_at(c: char, p: Point, door: int, costs: Seq<i32>) -> Seq<CaveObject> {
    if c == 'g' {
        seq![CaveObject::Gold(p)]
    } else if c == 'd' {
        seq![CaveObject::Door(p, costs[door])]
    } else if c == 'h' {
        seq![CaveObject::Health(p)]
    } else {
        Seq::empty()
    }
}

/// The objects of row `y`, left to right; its first door takes cost number `door0`.
pub open spec fn row_objects(row: Seq<char>, y: int, door0: int, costs: Seq<i32>) -> Seq<CaveObject>
    decreases row.len(),
{
    if row.len() == 0 {
        Seq::empty()
    } else {
        let pre = row.drop_last();
        row_objects(pre, y, door0, costs) + object_at(
            row.last(),
            world(pre.len() as int, y),
            door0 + count_doors(pre),
            costs,
        )
    }
}

/// The objects of the grid in reading order; the n-th door takes the n-th cost.
pub open spec fn grid_objects(rows: Seq<Seq<char>>, costs: Seq<i32>) -> Seq<CaveObject>
    decreases rows.len(),
{
    if rows.len() == 0 {
        Seq::empty()
    } else {
        let pre = rows.drop_last();
        grid_objects(pre, costs) + row_objects(rows.last(), pre.len() as int, door_total(pre) as int, costs)
    }
}

/// The last `'p'` of row `y`, or `prev` if it has none.
pub open spec fn row_spawn(row: Seq<char>, y: int, prev: Point) -> Point
    decreases row.len(),
{
    if row.len() == 0 {
        prev
    } else if row.last() == 'p' {
        world(row.len() - 1, y)
    } else {
        row_spawn(row.drop_last(), y, prev)
    }
}

/// Where the player starts: the last `'p'` in reading order, or the origin.
pub open spec fn spawn_point(rows: Seq<Seq<char>>) -> Point
    decreases rows.len(),
{
    if rows.len() == 0 {
        pt(0, 0)
    } else {
        row_spawn(rows.last(), rows.len() - 1, spawn_point(rows.drop_last()))
    }
}


/// The tile kinds of a map, row by row; a position without an entry reads as a wall.
pub struct TileMap {
    rows: Vec<Vec<Option<TileType>>>,
}

impl View for TileMap {
    type V = Seq<Seq<Option<TileType>>>;

    closed spec fn view(&self) -> Seq<Seq<Option<TileType>>> {
        self.rows@.map_values(|r: Vec<Option<TileType>>| r@)
    }
}

/// The entry at tile `(x, y)`, if the map has one.
pub open spec fn entry(m: Seq<Seq<Option<TileType>>>, x: int, y: int) -> Option<TileType> {
    if 0 <= y < m.len() && 0 <= x < m[y].len() {
        m[y][x]
    } else {
        None
    }
}

/// No row, and not the number of rows, exceeds `MAX_GRID_SIDE`.
pub open spec fn map_fits(m: Seq<Seq<Option<TileType>>>) -> bool {
    &&& m.len() <= MAX_GRID_SIDE
    &&& forall|y: int| 0 <= y < m.len() ==> #[trigger] m[y].len() <= MAX_GRID_SIDE
}

/// Compiled tiles keep the shape of the character rows.
pub proof fn lemma_tiles_fit(rows: Seq<Seq<char>>)
    requires
        grid_fits(rows),
    ensures
        map_fits(tiles_of(rows)),
{
    assert forall|y: int| 0 <= y < tiles_of(rows).len() implies #[trigger] tiles_of(rows)[y].len() <= MAX_GRID_SIDE by {
        assert(tiles_of(rows)[y].len() == rows[y].len());
    }
}

/// The kind of tile `(x, y)`, a wall where the map has no entry.
pub open spec fn kind_at(m: Seq<Seq<Option<TileType>>>, x: int, y: int) -> TileType {
    match entry(m, x, y) {
        Some(t) => t,
        None => TileType::Wall,
    }
}

impl TileMap {
    #[verifier::type_invariant]
    spec fn fits(self) -> bool {
        map_fits(self.rows@.map_values(|r: Vec<Option<TileType>>| r@))
    }

    /// A map with no tiles.
    pub fn new() -> (r: TileMap)
        ensures
            r@ == Seq::<Seq<Option<TileType>>>::empty(),
    {
        let rows: Vec<Vec<Option<TileType>>> = Vec::new();
        assert(rows@.map_values(|r: Vec<Option<TileType>>| r@) =~= Seq::<Seq<Option<TileType>>>::empty());
        let r = TileMap { rows };
        assert(r@ =~= Seq::<Seq<Option<TileType>>>::empty());
        r
    }

    /// Number of rows.
    pub fn height(&self) -> (r: usize)
        ensures
            r == self@.len(),
            r <= MAX_GRID_SIDE,
    {
        proof {
            use_type_invariant(self);
        }
        self.rows.len()
    }

    /// Number of tiles in row `y`, zero past the last row.
    pub fn width(&self, y: usize) -> (r: usize)
        ensures
            r == (if y < self@.len() {
                self@[y as int].len()
            } else {
                0
            }),
            r <= MAX_GRID_SIDE,
    {
        proof {
            use_type_invariant(self);
            if y < self@.len() {
                assert(self@[y as int].len() <= MAX_GRID_SIDE);
            }
        }
        if y < self.rows.len() {
            self.rows[y].len()
        } else {
            0
        }
    }

    /// The entry at tile `(x, y)`, if any.
    pub fn get(&self, x: i64, y: i64) -> (r: Option<TileType>)
        ensures
            r == entry(self@, x as int, y as int),
    {
        if y < 0 || x < 0 {
            return None;
        }
        let yu = y as u64;
        let xu = x as u64;
        if yu >= self.rows.len() as u64 {
            return None;
        }
        let row = &self.rows[yu as usize];
        if xu >= row.len() as u64 {
            return None;
        }
        row[xu as usize]
    }

    /// The kind of tile `(x, y)`; a missing entry reads as a wall.
    pub fn tile_at(&self, x: i64, y: i64) -> (r: TileType)
        ensures
            r == kind_at(self@, x as int, y as int),
    {
        match self.get(x, y) {
            Some(t) => t,
            None => TileType::Wall,
        }
    }

    /// Sets the kind of tile `(x, y)` if the position lies within the map's rows;
    /// returns whether it did.
    pub fn set(&mut self, x: i64, y: i64, t: TileType) -> (done: bool)
        ensures
            done == (0 <= y < old(self)@.len() && 0 <= x < old(self)@[y as int].len()),
            done ==> final(self)@ == old(self)@.update(y as int, old(self)@[y as int].update(x as int, Some(t))),
            !done ==> final(self)@ == old(self)@,
    {
        if y < 0 || x < 0 || y as u64 >= self.rows.len() as u64 {
            return false;
        }
        let yu = y as usize;
        if x as u64 >= self.rows[yu].len() as u64 {
            return false;
        }
        let xu = x as usize;
        let ghost before = self@;
        proof {
            use_type_invariant(&*self);
        }
        let mut rows: Vec<Vec<Option<TileType>>> = Vec::new();
        std::mem::swap(&mut rows, &mut self.rows);
        let mut row: Vec<Option<TileType>> = Vec::new();
        std::mem::swap(&mut row, &mut rows[yu]);
        row.set(xu, Some(t));
        rows.set(yu, row);
        assert(rows@.map_values(|r: Vec<Option<TileType>>| r@) =~~= before.update(
            y as int,
            before[y as int].update(x as int, Some(t)),
        ));
        proof {
            let v = rows@.map_values(|r: Vec<Option<TileType>>| r@);
            assert forall|j: int| 0 <= j < v.len() implies #[trigger] v[j].len() <= MAX_GRID_SIDE by {
                assert(before[j].len() <= MAX_GRID_SIDE);
            }
        }
        self.rows = rows;
        assert(self@ =~~= before.update(y as int, before[y as int].update(x as int, Some(t))));
        true
    }
}

/// Everything compiled from a grid text.
pub struct MapInfo {
    pub tiles: TileMap,
    pub collision: Vec<Segment>,
    pub player_start: Point,
    pub objects: Vec<CaveObject>,
}

pub struct MapInfoView {
    pub tiles: Seq<Seq<Option<TileType>>>,
    pub collision: Seq<Segment>,
    pub player_start: Point,
    pub objects: Seq<CaveObject>,
}

impl View for MapInfo {
    type V = MapInfoView;

    open spec fn view(&self) -> MapInfoView {
        MapInfoView {
            tiles: self.tiles@,
            collision: self.collision@,
            player_start: self.player_start,
            objects: self.objects@,
        }
    }
}

/// The whole result of compiling a grid text: the door costs are read first, then
/// every door must have a cost.
pub open spec fn compile(t: Seq<char>) -> Result<MapInfoView, ParseError> {
    match door_costs(header_of(t)) {
        None => Err(ParseError::BadDoorCost),
        Some(costs) => {
            let rows = rows_of(t);
            if door_total(rows) > costs.len() {
                Err(ParseError::MissingDoorCost)
            } else {
                Ok(
                    MapInfoView {
                        tiles: tiles_of(rows),
                        collision: boundary(rows),
                        player_start: spawn_point(rows),
                        objects: grid_objects(rows, costs),
                    },
                )
            }
        },
    }
}


fn tile_for(c: char) -> (r: Option<TileType>)
    ensures
        r == tile_of_char(c),
{
    match c {
        'w' => Some(TileType::Wall),
        '.' | 'b' | 'p' => Some(TileType::Floor),
        'g' => Some(TileType::Gold),
        'd' => Some(TileType::Door),
        's' => Some(TileType::Spikes),
        'h' => Some(TileType::Health),
        _ => None,
    }
}

fn build_tiles(rows: &Vec<Vec<char>>) -> (r: TileMap)
    requires
        grid_fits(views(rows@)),
    ensures
        r@ == tiles_of(views(rows@)),
{
    let mut out: Vec<Vec<Option<TileType>>> = Vec::new();
    let mut y: usize = 0;
    while y < rows.len()
        invariant
            y <= rows.len(),
            out@.len() == y,
            forall|j: int| 0 <= j < y ==> (#[trigger] out@[j])@ == rows@[j]@.map_values(|c: char| tile_of_char(c)),
        decreases rows.len() - y,
    {
        let row = &rows[y];
        let mut line: Vec<Option<TileType>> = Vec::new();
        let mut x: usize = 0;
        while x < row.len()
            invariant
                x <= row.len(),
                line@ == row@.take(x as int).map_values(|c: char| tile_of_char(c)),
            decreases row.len() - x,
        {
            line.push(tile_for(row[x]));
            assert(row@.take(x + 1) =~= row@.take(x as int).push(row@[x as int]));
            assert(line@ =~= row@.take(x + 1).map_values(|c: char| tile_of_char(c)));
            x += 1;
        }
        assert(row@.take(row.len() as int) =~= row@);
        out.push(line);
        y += 1;
    }
    proof {
        lemma_tiles_fit(views(rows@));
        assert(out@.map_values(|r: Vec<Option<TileType>>| r@) =~~= tiles_of(views(rows@)));
    }
    let r = TileMap { rows: out };
    assert(r@ =~~= tiles_of(views(rows@)));
    r
}

proof fn lemma_doors_prefix(row: Seq<char>, x: int)
    requires
        0 <= x <= row.len(),
    ensures
        count_doors(row.take(x)) <= count_doors(row),
    decreases row.len(),
{
    if x < row.len() {
        assert(row.drop_last().take(x) =~= row.take(x));
        lemma_doors_prefix(row.drop_last(), x);
    } else {
        assert(row.take(x) =~= row);
    }
}

proof fn lemma_total_prefix(rows: Seq<Seq<char>>, y: int)
    requires
        0 <= y <= rows.len(),
    ensures
        door_total(rows.take(y)) <= door_total(rows),
    decreases rows.len(),
{
    if y < rows.len() {
        assert(rows.drop_last().take(y) =~= rows.take(y));
        lemma_total_prefix(rows.drop_last(), y);
    } else {
        assert(rows.take(y) =~= rows);
    }
}

proof fn lemma_count_le_len(row: Seq<char>)
    ensures
        count_doors(row) <= row.len(),
    decreases row.len(),
{
    if row.len() > 0 {
        lemma_count_le_len(row.drop_last());
    }
}

/// Walks the rows in reading order and lists their objects; the n-th door takes
/// `costs[n]`.
fn collect_objects(rows: &Vec<Vec<char>>, costs: &Vec<i32>) -> (r: Vec<CaveObject>)
    requires
        door_total(views(rows@)) <= costs.len(),
        grid_fits(views(rows@)),
    ensures
        r@ == grid_objects(views(rows@), costs@),
{
    let ghost rv = views(rows@);
    let mut out: Vec<CaveObject> = Vec::new();
    let mut door: usize = 0;
    let mut y: usize = 0;
    assert(rv.take(0) =~= Seq::<Seq<char>>::empty());
    while y < rows.len()
        invariant
            rv == views(rows@),
            y <= rows.len(),
            grid_fits(rv),
            door_total(rv) <= costs.len(),
            door == door_total(rv.take(y as int)),
            out@ == grid_objects(rv.take(y as int), costs@),
        decreases rows.len() - y,
    {
        let row = &rows[y];
        let ghost rowv = row@;
        assert(rv[y as int] == rowv);
        let ghost door0 = door as int;
        let ghost base = out@;
        let mut x: usize = 0;
        proof {
            lemma_total_prefix(rv, y + 1);
            assert(rv.take(y + 1).drop_last() =~= rv.take(y as int));
            assert(rv.take(y + 1).last() == rowv);
        }
        assert(rowv.take(0) =~= Seq::<char>::empty());
        assert(base + row_objects(rowv.take(0), y as int, door0, costs@) =~= base);
        while x < row.len()
            invariant
                rowv == row@,
                y < rows.len(),
                rv[y as int] == rowv,
                rowv.len() <= MAX_GRID_SIDE,
                y <= MAX_GRID_SIDE,
                x <= row.len(),
                door0 + count_doors(rowv) <= costs.len(),
                door == door0 + count_doors(rowv.take(x as int)),
                out@ == base + row_objects(rowv.take(x as int), y as int, door0, costs@),
            decreases row.len() - x,
        {
            let c = row[x];
            let ghost pre = rowv.take(x as int);
            proof {
                assert(rowv.take(x + 1).drop_last() =~= pre);
                assert(rowv.take(x + 1).last() == c);
                lemma_doors_prefix(rowv, x + 1);
            }
            let p = Point { x: (x as i64) * TILE_WIDTH, y: (y as i64) * TILE_WIDTH };
            assert(p == world(pre.len() as int, y as int));
            if c == 'g' {
                out.push(CaveObject::Gold(p));
            } else if c == 'd' {
                out.push(CaveObject::Door(p, costs[door]));
                door += 1;
            } else if c == 'h' {
                out.push(CaveObject::Health(p));
            }
            assert(out@ =~= base + row_objects(rowv.take(x + 1), y as int, door0, costs@));
            x += 1;
        }
        assert(rowv.take(row.len() as int) =~= rowv);
        assert(out@ =~= grid_objects(rv.take(y + 1), costs@));
        y += 1;
    }
    assert(rv.take(rows.len() as int) =~= rv);
    out
}

/// Whether the rows hold more than `limit` door tiles.
fn doors_exceed(rows: &Vec<Vec<char>>, limit: usize) -> (r: bool)
    ensures
        r == (door_total(views(rows@)) > limit),
{
    let ghost rv = views(rows@);
    let mut n: usize = 0;
    let mut y: usize = 0;
    assert(rv.take(0) =~= Seq::<Seq<char>>::empty());
    while y < rows.len()
        invariant
            rv == views(rows@),
            y <= rows.len(),
            n == door_total(rv.take(y as int)),
            n <= limit,
        decreases rows.len() - y,
    {
        let row = &rows[y];
        let ghost rowv = row@;
        assert(rv[y as int] == rowv);
        let ghost n0 = n as int;
        let mut x: usize = 0;
        proof {
            lemma_total_prefix(rv, y + 1);
            assert(rv.take(y + 1).drop_last() =~= rv.take(y as int));
            assert(rv.take(y + 1).last() == rowv);
        }
        assert(rowv.take(0) =~= Seq::<char>::empty());
        while x < row.len()
            invariant
                rowv == row@,
                rv == views(rows@),
                y < rows.len(),
                x <= row.len(),
                n == n0 + count_doors(rowv.take(x as int)),
                n0 + count_doors(rowv) <= door_total(rv),
                n <= limit,
            decreases row.len() - x,
        {
            proof {
                assert(rowv.take(x + 1).drop_last() =~= rowv.take(x as int));
                lemma_doors_prefix(rowv, x + 1);
            }
            if row[x] == 'd' {
                if n == limit {
                    assert(rowv.take(x + 1).last() == rowv[x as int]);
                    assert(count_doors(rowv.take(x + 1)) == count_doors(rowv.take(x as int)) + 1);
                    return true;
                }
                n += 1;
            }
            x += 1;
        }
        assert(rowv.take(row.len() as int) =~= rowv);
        y += 1;
    }
    assert(rv.take(rows.len() as int) =~= rv);
    false
}

/// The last `'p'` of the rows in reading order, or the origin.
fn find_spawn(rows: &Vec<Vec<char>>) -> (r: Point)
    requires
        grid_fits(views(rows@)),
    ensures
        r == spawn_point(views(rows@)),
{
    let ghost rv = views(rows@);
    let mut at = Point { x: 0, y: 0 };
    let mut y: usize = 0;
    assert(rv.take(0) =~= Seq::<Seq<char>>::empty());
    while y < rows.len()
        invariant
            rv == views(rows@),
            y <= rows.len(),
            grid_fits(rv),
            at == spawn_point(rv.take(y as int)),
        decreases rows.len() - y,
    {
        let row = &rows[y];
        let ghost rowv = row@;
        assert(rv[y as int] == rowv);
        let ghost prev = at;
        let mut x: usize = 0;
        assert(rowv.take(0) =~= Seq::<char>::empty());
        while x < row.len()
            invariant
                rowv == row@,
                rowv.len() <= MAX_GRID_SIDE,
                y < rows.len(),
                rows.len() <= MAX_GRID_SIDE,
                x <= row.len(),
                at == row_spawn(rowv.take(x as int), y as int, prev),
            decreases row.len() - x,
        {
            assert(rowv.take(x + 1).drop_last() =~= rowv.take(x as int));
            if row[x] == 'p' {
                at = Point { x: (x as i64) * TILE_WIDTH, y: (y as i64) * TILE_WIDTH };
            }
            x += 1;
        }
        assert(rowv.take(row.len() as int) =~= rowv);
        assert(rv.take(y + 1).drop_last() =~= rv.take(y as int));
        y += 1;
    }
    assert(rv.take(rows.len() as int) =~= rv);
    at
}

/// The tile rows of a grid text, one character per tile: every line after the first.
pub fn grid_rows(data: &str) -> (r: Vec<Vec<char>>)
    ensures
        views(r@) == rows_of(data@),
{
    let chars = chars_of(data);
    let mut lines = split_chars(&chars, '\n');
    proof {
        lemma_split_nonempty(data@, '\n');
    }
    let ghost all = views(lines@);
    lines.remove(0);
    assert(views(lines@) =~= all.drop_first());
    lines
}

proof fn lemma_rows_fit(t: Seq<char>)
    requires
        t.len() <= MAX_GRID_SIDE,
    ensures
        grid_fits(rows_of(t)),
{
    lemma_split_sizes(t, '\n');
    lemma_split_nonempty(t, '\n');
    let parts = split_on(t, '\n');
    assert forall|y: int| 0 <= y < rows_of(t).len() implies #[trigger] rows_of(t)[y].len() <= MAX_GRID_SIDE by {
        assert(rows_of(t)[y] == parts[y + 1]);
    }
}

/// Compiles a grid text. Its first line lists the door costs, comma separated, at
/// least one; each later line is a row of tiles, one character each.
/// Fails with `BadDoorCost` when a token of the first line is not a decimal `i32` (an
/// empty first line is one empty token), and
/// otherwise with `MissingDoorCost` when the grid has more doors than costs.
pub fn build_map(data: &str) -> (r: Result<MapInfo, ParseError>)
    requires
        data@.len() <= MAX_GRID_SIDE,
    ensures
        match r {
            Ok(m) => compile(data@) == Ok::<MapInfoView, ParseError>(m@) && map_fits(m.tiles@),
            Err(e) => compile(data@) == Err::<MapInfoView, ParseError>(e),
        },
{
    let chars = chars_of(data);
    let lines = split_chars(&chars, '\n');
    proof {
        lemma_split_nonempty(data@, '\n');
        lemma_rows_fit(data@);
    }
    let mut header: Vec<char> = lines[0].clone();
    assert(header@ == lines@[0]@);
    let hl = header.len();
    if lines.len() > 1 && hl > 0 && header[hl - 1] == '\r' {
        header.pop();
    }
    assert(header@ =~= header_of(data@));
    let costs = match parse_door_costs(&header) {
        Some(c) => c,
        None => return Err(ParseError::BadDoorCost),
    };
    let rows = grid_rows(data);
    if doors_exceed(&rows, costs.len()) {
        return Err(ParseError::MissingDoorCost);
    }
    let tiles = build_tiles(&rows);
    let collision = merge_boundary(&rows);
    let player_start = find_spawn(&rows);
    let objects = collect_objects(&rows, &costs);
    proof {
        lemma_tiles_fit(views(rows@));
    }
    Ok(MapInfo { tiles, collision, player_start, objects })
}

} // verus!
