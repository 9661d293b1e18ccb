// The world uses a Z-up coordinate system.
use vstd::prelude::*;
use crate::chunk::{
    BlockType, Chunk, index_x, index_y, index_z, lemma_block_index, lemma_index_decode, BLOCKS_PER_CHUNK,
    CHUNK_HEIGHT, CHUNK_SIZE,
};
use crate::terrain::{ColumnRolls, TerrainSamples, build_terrain, draw_column_rolls, terrain_blocks};
use crate::mesh::{Mesh, chunk_vertices, quad_indices};
use crate::player::Player;
use crate::vector::{Vector2i, Vector3i};

verus! {

/// How far from a player, in chunks, chunks stay loaded.
pub const VIEW_DISTANCE: usize = 4;
/// Room for chunks beyond those of the disc of view.
pub const EXTRA_CHUNKS: usize = 1;
/// The integer part of pi, to size the disc of view.
pub const FLOOR_PI: usize = 3;
/// How many chunk slots a manager holds at most.
pub const MAX_CHUNKS: usize = VIEW_DISTANCE * VIEW_DISTANCE * FLOOR_PI + EXTRA_CHUNKS;
/// A cap on trees per chunk. Terrain generation places no trees, so nothing
/// reads it.
pub const MAX_TREES: usize = 5;
/// Solid blocks below this height that are not ore become bedrock.
pub const BEDROCK: usize = 5;
/// Air below this height fills with water.
pub const SEA_LEVEL: usize = 25;

/// The loaded chunks, the players around whom they are loaded, and the meshes
/// of the chunks.
#[derive(Clone)]
pub struct ChunkManager {
    chunks: Vec<Option<Box<Chunk>>>,
    players: Vec<Player>,
    meshes: Vec<Mesh>,
}

/// The slot holds a chunk at chunk coordinates `xy`.
pub open spec fn holds_chunk_at(slot: Option<Chunk>, xy: Vector2i) -> bool {
    slot matches Some(c) && c.xy == xy
}

/// The player is called `name`.
pub open spec fn is_named(p: Player, name: Seq<char>) -> bool {
    p.name matches Some(n) && n@ == name
}

impl ChunkManager {
    /// The chunk slots, in order; a slot is empty or holds a chunk.
    pub closed spec fn slots(&self) -> Seq<Option<Chunk>> {
        Seq::new(
            self.chunks@.len(),
            |i: int|
                match self.chunks@[i] {
                    Some(b) => Some(*b),
                    None => None,
                },
        )
    }

    /// The players, in the order they joined.
    pub closed spec fn player_list(&self) -> Seq<Player> {
        self.players@
    }

    /// The meshes last generated.
    pub closed spec fn mesh_list(&self) -> Seq<Mesh> {
        self.meshes@
    }

    /// The first slot that holds a chunk at `xy`, or -1 where none does.
    pub open spec fn first_chunk_at(slots: Seq<Option<Chunk>>, xy: Vector2i, n: int) -> int
        decreases n,
    {
        if n <= 0 {
            -1
        } else if Self::first_chunk_at(slots, xy, n - 1) >= 0 {
            Self::first_chunk_at(slots, xy, n - 1)
        } else if holds_chunk_at(slots[n - 1], xy) {
            n - 1
        } else {
            -1
        }
    }

    /// The loaded chunk at `xy` that comes first among the slots.
    pub fn find_chunk(&self, xy: Vector2i) -> (r: Option<&Chunk>)
        ensures
            ({
                let k = Self::first_chunk_at(self.slots(), xy, self.slots().len() as int);
                &&& r is None <==> k < 0
                &&& r matches Some(c) ==> self.slots()[k] == Some(*c)
            }),
    {
        let ghost slots = self.slots();
        let mut i: usize = 0;
        while i < self.chunks.len()
            invariant
                i <= self.chunks@.len(),
                slots == self.slots(),
                Self::first_chunk_at(slots, xy, i as int) < 0,
            decreases self.chunks@.len() - i,
        {
            match &self.chunks[i] {
                Some(chunk) => {
                    if chunk.xy.x == xy.x && chunk.xy.y == xy.y {
                        proof {
                            assert(Self::first_chunk_at(slots, xy, i + 1) == i);
                            lemma_first_chunk_at_stays(slots, xy, i + 1, slots.len() as int);
                        }
                        return Some(&**chunk);
                    }
                },
                None => {},
            }
            i = i + 1;
        }
        None
    }
}

proof fn lemma_first_chunk_at_stays(slots: Seq<Option<Chunk>>, xy: Vector2i, m: int, n: int)
    requires
        0 <= m <= n,
        ChunkManager::first_chunk_at(slots, xy, m) >= 0,
    ensures
        ChunkManager::first_chunk_at(slots, xy, n) == ChunkManager::first_chunk_at(slots, xy, m),
    decreases n - m,
{
    if m < n {
        lemma_first_chunk_at_stays(slots, xy, m, n - 1);
    }
}

impl ChunkManager {
    /// The first slot below `n` that is empty, or -1 where none is.
    pub open spec fn first_empty_slot(slots: Seq<Option<Chunk>>, n: int) -> int
        decreases n,
    {
        if n <= 0 {
            -1
        } else if Self::first_empty_slot(slots, n - 1) >= 0 {
            Self::first_empty_slot(slots, n - 1)
        } else if slots[n - 1] is None {
            n - 1
        } else {
            -1
        }
    }

    /// The first player below `n` called `name`, or -1 where none is.
    pub open spec fn first_named(players: Seq<Player>, name: Seq<char>, n: int) -> int
        decreases n,
    {
        if n <= 0 {
            -1
        } else if Self::first_named(players, name, n - 1) >= 0 {
            Self::first_named(players, name, n - 1)
        } else if is_named(players[n - 1], name) {
            n - 1
        } else {
            -1
        }
    }

    /// The chunk in slot `index`, if the slot exists and holds one.
    pub fn get_chunk(&self, index: usize) -> (r: Option<&Chunk>)
        ensures
            r is None <==> (index >= self.slots().len() || self.slots()[index as int] is None),
            r matches Some(c) ==> self.slots()[index as int] == Some(*c),
    {
        if index < self.chunks.len() {
            match &self.chunks[index] {
                Some(chunk) => Some(&**chunk),
                None => None,
            }
        } else {
            None
        }
    }

    /// A manager with no chunk, no player and no mesh.
    pub fn new() -> (m: Self)
        ensures
            m.slots() == Seq::<Option<Chunk>>::empty(),
            m.player_list() == Seq::<Player>::empty(),
            m.mesh_list() == Seq::<Mesh>::empty(),
    {
        let m = Self { chunks: Vec::with_capacity(MAX_CHUNKS), players: Vec::new(), meshes: Vec::new() };
        assert(m.slots() =~= Seq::<Option<Chunk>>::empty());
        m
    }

    /// Adds a player called `name` at `initial_pos`, after the others.
    pub fn add_player(&mut self, initial_pos: Vector3i, name: String)
        ensures
            final(self).player_list() == old(self).player_list().push(
                Player { pos: initial_pos, name: Some(name) },
            ),
            final(self).slots() == old(self).slots(),
            final(self).mesh_list() == old(self).mesh_list(),
    {
        let player = Player::new(Some(name), initial_pos);
        self.players.push(player);
    }

    /// The first player called `name`.
    pub fn get_player(&self, name: &String) -> (r: Option<&Player>)
        ensures
            ({
                let k = Self::first_named(self.player_list(), name@, self.player_list().len() as int);
                &&& r is None <==> k < 0
                &&& r matches Some(p) ==> self.player_list()[k] == *p
            }),
    {
        let ghost players = self.players@;
        let mut i: usize = 0;
        while i < self.players.len()
            invariant
                i <= self.players@.len(),
                players == self.players@,
                Self::first_named(players, name@, i as int) < 0,
            decreases self.players@.len() - i,
        {
            let player = &self.players[i];
            match &player.name {
                Some(n) => {
                    if n.eq(name) {
                        proof {
                            assert(Self::first_named(players, name@, i + 1) == i);
                            lemma_first_named_stays(players, name@, i + 1, players.len() as int);
                        }
                        return Some(player);
                    }
                },
                None => {},
            }
            i = i + 1;
        }
        None
    }

    /// Puts `chunk` in the first empty slot; where there is none, adds a slot
    /// for it unless the manager already has `MAX_CHUNKS` slots, in which case
    /// the chunk is dropped.
    pub fn insert_chunk(&mut self, chunk: Chunk)
        ensures
            final(self).slots() == slots_after_insert(old(self).slots(), chunk),
            old(self).slots().len() <= MAX_CHUNKS ==> final(self).slots().len() <= MAX_CHUNKS,
            final(self).player_list() == old(self).player_list(),
            final(self).mesh_list() == old(self).mesh_list(),
    {
        let ghost slots = self.slots();
        let mut i: usize = 0;
        while i < self.chunks.len()
            invariant
                i <= self.chunks@.len(),
                slots == self.slots(),
                self.players@ == old(self).players@,
                self.meshes@ == old(self).meshes@,
                slots == old(self).slots(),
                Self::first_empty_slot(slots, i as int) < 0,
            decreases self.chunks@.len() - i,
        {
            if self.chunks[i].is_none() {
                self.chunks.set(i, Some(Box::new(chunk)));
                proof {
                    assert(Self::first_empty_slot(slots, i + 1) == i);
                    lemma_first_empty_slot_stays(slots, i + 1, slots.len() as int);
                    assert(self.slots() =~= slots.update(i as int, Some(chunk)));
                }
                return;
            }
            i = i + 1;
        }
        if self.chunks.len() < MAX_CHUNKS {
            self.chunks.push(Some(Box::new(chunk)));
            assert(self.slots() =~= slots.push(Some(chunk)));
        }
    }
}

proof fn lemma_first_empty_slot_stays(slots: Seq<Option<Chunk>>, m: int, n: int)
    requires
        0 <= m <= n,
        ChunkManager::first_empty_slot(slots, m) >= 0,
    ensures
        ChunkManager::first_empty_slot(slots, n) == ChunkManager::first_empty_slot(slots, m),
    decreases n - m,
{
    if m < n {
        lemma_first_empty_slot_stays(slots, m, n - 1);
    }
}

proof fn lemma_first_named_stays(players: Seq<Player>, name: Seq<char>, m: int, n: int)
    requires
        0 <= m <= n,
        ChunkManager::first_named(players, name, m) >= 0,
    ensures
        ChunkManager::first_named(players, name, n) == ChunkManager::first_named(players, name, m),
    decreases n - m,
{
    if m < n {
        lemma_first_named_stays(players, name, m, n - 1);
    }
}

impl ChunkManager {
    /// The first player called `name`, to be changed in place.
    pub fn get_player_mut(&mut self, name: &String) -> (r: Option<&mut Player>)
        ensures
            ({
                let k = Self::first_named(old(self).player_list(), name@, old(self).player_list().len() as int);
                &&& r is None <==> k < 0
                &&& k < 0 ==> final(self).player_list() == old(self).player_list()
                &&& r matches Some(p) ==> *p == old(self).player_list()[k]
                &&& r matches Some(p) ==> final(self).player_list() == old(self).player_list().update(k, *final(p))
                &&& final(self).slots() == old(self).slots()
                &&& final(self).mesh_list() == old(self).mesh_list()
            }),
    {
        let ghost players = self.players@;
        let mut i: usize = 0;
        while i < self.players.len()
            invariant
                i <= self.players@.len(),
                players == self.players@,
                self.players@ == old(self).players@,
                self.chunks@ == old(self).chunks@,
                self.meshes@ == old(self).meshes@,
                Self::first_named(players, name@, i as int) < 0,
            decreases self.players@.len() - i,
        {
            let found = match &self.players[i].name {
                Some(n) => n.eq(name),
                None => false,
            };
            if found {
                proof {
                    assert(Self::first_named(players, name@, i + 1) == i);
                    lemma_first_named_stays(players, name@, i + 1, players.len() as int);
                }
                return Some(&mut self.players[i]);
            }
            i = i + 1;
        }
        None
    }
}

/// Holds of the players not called `name`.
pub open spec fn not_named(name: Seq<char>) -> spec_fn(Player) -> bool {
    |p: Player| !is_named(p, name)
}

proof fn lemma_filter_take_step<A>(s: Seq<A>, pred: spec_fn(A) -> bool, k: int)
    requires
        0 <= k < s.len(),
    ensures
        s.take(k + 1).filter(pred) == if pred(s[k]) {
            s.take(k).filter(pred).push(s[k])
        } else {
            s.take(k).filter(pred)
        },
{
    reveal(Seq::filter);
    assert(s.take(k + 1).drop_last() =~= s.take(k));
}

impl ChunkManager {
    /// Removes every player called `name`; the others keep their order.
    pub fn remove_player(&mut self, name: &String)
        ensures
            final(self).player_list() == old(self).player_list().filter(not_named(name@)),
            final(self).slots() == old(self).slots(),
            final(self).mesh_list() == old(self).mesh_list(),
    {
        let ghost start = self.players@;
        let ghost keep = not_named(name@);
        let ghost mut k: int = 0;
        let mut i: usize = 0;
        while i < self.players.len()
            invariant
                0 <= k <= start.len(),
                i == start.take(k).filter(keep).len(),
                self.players@ == start.take(k).filter(keep) + start.skip(k),
                keep == not_named(name@),
                self.chunks@ == old(self).chunks@,
                self.meshes@ == old(self).meshes@,
            decreases start.len() - k,
        {
            proof {
                assert(self.players@[i as int] == start[k]);
                lemma_filter_take_step(start, keep, k);
            }
            let named = match &self.players[i].name {
                Some(n) => n.eq(name),
                None => false,
            };
            if named {
                self.players.remove(i);
                proof {
                    assert(self.players@ =~= start.take(k + 1).filter(keep) + start.skip(k + 1));
                }
            } else {
                i = i + 1;
                proof {
                    assert(self.players@ =~= start.take(k + 1).filter(keep) + start.skip(k + 1));
                }
            }
            proof {
                k = k + 1;
            }
        }
        proof {
            assert(start.take(k).filter(keep).len() <= start.take(k).len()) by {
                start.take(k).lemma_filter_len(keep);
            }
            assert(k == start.len());
            assert(start.take(k) =~= start);
            assert(self.players@ =~= start.filter(keep));
        }
    }
}

/// Truncating division by `CHUNK_SIZE`: the chunk coordinate of a block
/// coordinate, rounded toward zero.
pub open spec fn chunk_coord(a: int) -> int {
    if a >= 0 {
        a / 16
    } else {
        -((-a) / 16)
    }
}

/// Some slot holds a chunk at chunk coordinates `(x, y)`.
pub open spec fn is_loaded(slots: Seq<Option<Chunk>>, x: int, y: int) -> bool {
    exists|i: int| 0 <= i < slots.len() && holds_chunk_xy(#[trigger] slots[i], x, y)
}

/// The slot holds a chunk at chunk coordinates `(x, y)`.
pub open spec fn holds_chunk_xy(slot: Option<Chunk>, x: int, y: int) -> bool {
    slot matches Some(c) && c.xy.x == x && c.xy.y == y
}

/// What offset `(dx, dz)` from the chunk `(px, py)` of a player asks to load:
/// the chunk there, where it lies within `VIEW_DISTANCE` and is not loaded.
pub open spec fn wanted_at(slots: Seq<Option<Chunk>>, px: int, py: int, dx: int, dz: int) -> Seq<Vector2i> {
    if dx * dx + dz * dz <= 16 && !is_loaded(slots, px + dx, py + dz) {
        seq![Vector2i { x: (px + dx) as i32, y: (py + dz) as i32 }]
    } else {
        Seq::empty()
    }
}

/// What the offsets `(dx, -4)` up to `(dx, n - 5)` ask to load.
pub open spec fn wanted_row(slots: Seq<Option<Chunk>>, px: int, py: int, dx: int, n: int) -> Seq<Vector2i>
    decreases n,
{
    if n <= 0 {
        Seq::empty()
    } else {
        wanted_row(slots, px, py, dx, n - 1) + wanted_at(slots, px, py, dx, n - 5)
    }
}

/// What the rows `dx = -4` up to `dx = n - 5` ask to load.
pub open spec fn wanted_disc(slots: Seq<Option<Chunk>>, px: int, py: int, n: int) -> Seq<Vector2i>
    decreases n,
{
    if n <= 0 {
        Seq::empty()
    } else {
        wanted_disc(slots, px, py, n - 1) + wanted_row(slots, px, py, n - 5, 9)
    }
}

/// What the first `n` players ask to load, in their order: for each, the
/// chunks within `VIEW_DISTANCE` of the chunk the player is in that are not
/// loaded, going through `dx` and then `dz` from -4 to 4.
pub open spec fn chunks_to_load(slots: Seq<Option<Chunk>>, players: Seq<Player>, n: int) -> Seq<Vector2i>
    decreases n,
{
    if n <= 0 {
        Seq::empty()
    } else {
        chunks_to_load(slots, players, n - 1) + wanted_disc(
            slots,
            chunk_coord(players[n - 1].pos.x as int),
            chunk_coord(players[n - 1].pos.y as int),
            9,
        )
    }
}

impl ChunkManager {
    /// Some slot holds a chunk at chunk coordinates `(x, y)`.
    fn chunk_loaded_at(&self, x: i32, y: i32) -> (r: bool)
        ensures
            r == is_loaded(self.slots(), x as int, y as int),
    {
        let ghost slots = self.slots();
        let mut i: usize = 0;
        while i < self.chunks.len()
            invariant
                i <= self.chunks@.len(),
                slots == self.slots(),
                forall|j: int| 0 <= j < i ==> !holds_chunk_xy(#[trigger] slots[j], x as int, y as int),
            decreases self.chunks@.len() - i,
        {
            match &self.chunks[i] {
                Some(chunk) => {
                    if chunk.xy.x == x && chunk.xy.y == y {
                        assert(holds_chunk_xy(slots[i as int], x as int, y as int));
                        return true;
                    }
                },
                None => {},
            }
            i = i + 1;
        }
        false
    }

    /// The chunks that the players ask to load and that are not loaded.
    ///
    /// For each player in turn, the chunks whose chunk coordinates lie within
    /// `VIEW_DISTANCE` (a disc: `dx * dx + dz * dz <= VIEW_DISTANCE *
    /// VIEW_DISTANCE`) of the chunk the player is in. A chunk that two players
    /// ask for is listed twice.
    pub fn find_chunks_to_load(&self) -> (r: Vec<Vector2i>)
        ensures
            r@ == chunks_to_load(self.slots(), self.player_list(), self.player_list().len() as int),
    {
        let ghost slots = self.slots();
        let ghost players = self.players@;
        let mut chunks_to_load_now: Vec<Vector2i> = Vec::new();
        let view_dist: i32 = VIEW_DISTANCE as i32;
        let view_dist_squared: i32 = (VIEW_DISTANCE * VIEW_DISTANCE) as i32;
        let mut k: usize = 0;
        while k < self.players.len()
            invariant
                k <= players.len(),
                slots == self.slots(),
                players == self.players@,
                view_dist == 4,
                view_dist_squared == 16,
                chunks_to_load_now@ == chunks_to_load(slots, players, k as int),
            decreases players.len() - k,
        {
            let player = &self.players[k];
            let player_chunk_x: i32 = player.pos.x / CHUNK_SIZE_I32;
            let player_chunk_y: i32 = player.pos.y / CHUNK_SIZE_I32;
            let ghost px = chunk_coord(player.pos.x as int);
            let ghost py = chunk_coord(player.pos.y as int);
            assert(player_chunk_x == px && player_chunk_y == py);
            let ghost head = chunks_to_load(slots, players, k as int);
            let mut dx: i32 = -view_dist;
            while dx <= view_dist
                invariant
                    -4 <= dx <= 5,
                    view_dist == 4,
                    view_dist_squared == 16,
                    slots == self.slots(),
                    player_chunk_x == px,
                    player_chunk_y == py,
                    -134217728 <= px <= 134217728,
                    -134217728 <= py <= 134217728,
                    chunks_to_load_now@ == head + wanted_disc(slots, px, py, dx + 4),
                decreases 5 - dx,
            {
                let mut dz: i32 = -view_dist;
                while dz <= view_dist
                    invariant
                        -4 <= dx <= 4,
                        -4 <= dz <= 5,
                        view_dist == 4,
                        view_dist_squared == 16,
                        slots == self.slots(),
                        player_chunk_x == px,
                        player_chunk_y == py,
                        -134217728 <= px <= 134217728,
                        -134217728 <= py <= 134217728,
                        chunks_to_load_now@ == head + wanted_disc(slots, px, py, dx + 4) + wanted_row(
                            slots,
                            px,
                            py,
                            dx as int,
                            dz + 4,
                        ),
                    decreases 5 - dz,
                {
                    assert(0 <= dx * dx <= 16 && 0 <= dz * dz <= 16) by (nonlinear_arith)
                        requires
                            -4 <= dx <= 4,
                            -4 <= dz <= 4,
                    ;
                    let ghost before = chunks_to_load_now@;
                    if dx * dx + dz * dz <= view_dist_squared {
                        let chunk_x: i32 = player_chunk_x + dx;
                        let chunk_y: i32 = player_chunk_y + dz;
                        let already_loaded = self.chunk_loaded_at(chunk_x, chunk_y);
                        if !already_loaded {
                            chunks_to_load_now.push(Vector2i::new(chunk_x, chunk_y));
                        }
                    }
                    proof {
                        let d = head + wanted_disc(slots, px, py, dx + 4);
                        let w = wanted_row(slots, px, py, dx as int, dz + 4);
                        let a = wanted_at(slots, px, py, dx as int, dz as int);
                        assert(chunks_to_load_now@ == before + a);
                        assert(d + w + a =~= d + (w + a));
                    }
                    dz = dz + 1;
                }
                proof {
                    let d = wanted_disc(slots, px, py, dx + 4);
                    let w = wanted_row(slots, px, py, dx as int, 9);
                    assert(head + d + w =~= head + (d + w));
                }
                dx = dx + 1;
            }
            k = k + 1;
        }
        chunks_to_load_now
    }
}

/// `CHUNK_SIZE` as a signed chunk coordinate divisor.
const CHUNK_SIZE_I32: i32 = 16;

/// The chunk at chunk coordinates `(x, y)` lies within `VIEW_DISTANCE` of the
/// chunk the player is in: the squared distance between the two is at most
/// `VIEW_DISTANCE * VIEW_DISTANCE`.
pub open spec fn near_player(p: Player, x: int, y: int) -> bool {
    let dx = chunk_coord(p.pos.x as int) - x;
    let dy = chunk_coord(p.pos.y as int) - y;
    dx * dx + dy * dy <= 16
}

/// Some player is near the chunk at `(x, y)`.
pub open spec fn near_some_player(players: Seq<Player>, x: int, y: int) -> bool {
    exists|k: int| 0 <= k < players.len() && near_player(#[trigger] players[k], x, y)
}

/// Holds of the slots that keep their chunk: those that hold a chunk near some
/// player.
pub open spec fn stays_loaded(players: Seq<Player>) -> spec_fn(Option<Chunk>) -> bool {
    |s: Option<Chunk>| s matches Some(c) && near_some_player(players, c.xy.x as int, c.xy.y as int)
}

/// Holds of the slots whose chunk is dropped: those that hold a chunk that no
/// player is near.
pub open spec fn falls_out(players: Seq<Player>) -> spec_fn(Option<Chunk>) -> bool {
    |s: Option<Chunk>| s matches Some(c) && !near_some_player(players, c.xy.x as int, c.xy.y as int)
}

/// The chunks that the slots hold, in slot order.
pub open spec fn loaded_chunks(slots: Seq<Option<Chunk>>) -> Seq<Chunk>
    decreases slots.len(),
{
    if slots.len() == 0 {
        Seq::empty()
    } else {
        loaded_chunks(slots.drop_last()) + match slots.last() {
            Some(c) => seq![c],
            None => Seq::empty(),
        }
    }
}

/// `m` is the mesh that `Chunk::generate_mesh` makes of `c`.
pub open spec fn is_mesh_of(m: Mesh, c: Chunk) -> bool {
    &&& m.vertices@ == chunk_vertices(c.blocks@)
    &&& m.indices@ == quad_indices(m.vertices@.len() / 4)
}

/// The meshes are those of the loaded chunks, one each, in slot order.
pub open spec fn meshes_of(meshes: Seq<Mesh>, slots: Seq<Option<Chunk>>) -> bool {
    &&& meshes.len() == loaded_chunks(slots).len()
    &&& forall|k: int| 0 <= k < meshes.len() ==> is_mesh_of(#[trigger] meshes[k], loaded_chunks(slots)[k])
}

proof fn lemma_loaded_chunks_take_step(slots: Seq<Option<Chunk>>, i: int)
    requires
        0 <= i < slots.len(),
    ensures
        loaded_chunks(slots.take(i + 1)) == loaded_chunks(slots.take(i)) + match slots[i] {
            Some(c) => seq![c],
            None => Seq::<Chunk>::empty(),
        },
{
    assert(slots.take(i + 1).drop_last() =~= slots.take(i));
}

impl ChunkManager {
    /// Some player is near the chunk at `(cx, cy)`.
    fn near_any_player(&self, cx: i32, cy: i32) -> (r: bool)
        ensures
            r == near_some_player(self.players@, cx as int, cy as int),
    {
        let ghost players = self.players@;
        let mut k: usize = 0;
        while k < self.players.len()
            invariant
                k <= players.len(),
                players == self.players@,
                forall|j: int| 0 <= j < k ==> !near_player(#[trigger] players[j], cx as int, cy as int),
            decreases players.len() - k,
        {
            let player = &self.players[k];
            let player_chunk_x: i32 = player.pos.x / CHUNK_SIZE_I32;
            let player_chunk_y: i32 = player.pos.y / CHUNK_SIZE_I32;
            let dx: i64 = player_chunk_x as i64 - cx as i64;
            let dy: i64 = player_chunk_y as i64 - cy as i64;
            proof {
                lemma_square_bound(dx as int, dy as int);
            }
            if -4 <= dx && dx <= 4 && -4 <= dy && dy <= 4 {
                assert(0 <= dx * dx <= 16 && 0 <= dy * dy <= 16) by (nonlinear_arith)
                    requires
                        -4 <= dx <= 4,
                        -4 <= dy <= 4,
                ;
                if dx * dx + dy * dy <= 16 {
                    assert(near_player(players[k as int], cx as int, cy as int));
                    return true;
                }
            }
            k = k + 1;
        }
        false
    }
}

proof fn lemma_square_bound(dx: int, dy: int)
    ensures
        dx * dx + dy * dy <= 16 ==> -4 <= dx <= 4 && -4 <= dy <= 4,
{
    assert(dx * dx + dy * dy <= 16 ==> -4 <= dx <= 4 && -4 <= dy <= 4) by (nonlinear_arith);
}

impl ChunkManager {
    /// Remakes the mesh of every loaded chunk, in slot order, and hands them
    /// out.
    pub fn generate_meshes(&mut self) -> (r: &[Mesh])
        ensures
            meshes_of(final(self).mesh_list(), final(self).slots()),
            r@ == final(self).mesh_list(),
            final(self).slots() == old(self).slots(),
            final(self).player_list() == old(self).player_list(),
    {
        let ghost slots = self.slots();
        let mut meshes: Vec<Mesh> = Vec::with_capacity(MAX_CHUNKS);
        let mut i: usize = 0;
        while i < self.chunks.len()
            invariant
                i <= slots.len(),
                slots == self.slots(),
                meshes_of(meshes@, slots.take(i as int)),
            decreases slots.len() - i,
        {
            proof {
                lemma_loaded_chunks_take_step(slots, i as int);
            }
            match &self.chunks[i] {
                Some(chunk) => {
                    let mesh = chunk.generate_mesh();
                    meshes.push(mesh);
                },
                None => {},
            }
            i = i + 1;
        }
        assert(slots.take(slots.len() as int) =~= slots);
        self.meshes = meshes;
        self.meshes.as_slice()
    }

    /// The meshes last generated.
    pub fn get_meshes(&self) -> (r: &[Mesh])
        ensures
            r@ == self.mesh_list(),
    {
        self.meshes.as_slice()
    }

    /// The number of meshes differs from the number of loaded chunks.
    pub fn needs_mesh_update(&self) -> (r: bool)
        ensures
            r == (self.mesh_list().len() != loaded_chunks(self.slots()).len()),
    {
        let ghost slots = self.slots();
        let mut loaded: usize = 0;
        let mut i: usize = 0;
        while i < self.chunks.len()
            invariant
                i <= slots.len(),
                slots == self.slots(),
                loaded == loaded_chunks(slots.take(i as int)).len(),
                loaded <= i,
            decreases slots.len() - i,
        {
            proof {
                lemma_loaded_chunks_take_step(slots, i as int);
            }
            if self.chunks[i].is_some() {
                loaded = loaded + 1;
            }
            i = i + 1;
        }
        assert(slots.take(slots.len() as int) =~= slots);
        self.meshes.len() != loaded
    }

    /// Drops the chunks that no player is near, and the empty slots, keeping
    /// the order of the rest, and returns how many chunks were dropped. The
    /// meshes are remade where some chunk was dropped. With no player at all,
    /// every slot and every mesh goes and the result is 0.
    pub fn remove_chunks(&mut self) -> (removed: usize)
        ensures
            old(self).player_list().len() == 0 ==> {
                &&& final(self).slots() == Seq::<Option<Chunk>>::empty()
                &&& final(self).mesh_list() == Seq::<Mesh>::empty()
                &&& removed == 0
            },
            old(self).player_list().len() > 0 ==> {
                let players = old(self).player_list();
                &&& final(self).slots() == old(self).slots().filter(stays_loaded(players))
                &&& removed == old(self).slots().filter(falls_out(players)).len()
                &&& removed > 0 ==> meshes_of(final(self).mesh_list(), final(self).slots())
                &&& removed == 0 ==> final(self).mesh_list() == old(self).mesh_list()
            },
            final(self).player_list() == old(self).player_list(),
            final(self).slots().len() <= old(self).slots().len(),
            forall|i: int|
                0 <= i < final(self).slots().len() ==> #[trigger] stays_loaded(final(self).player_list())(
                    final(self).slots()[i],
                ),
    {
        if self.players.len() == 0 {
            self.chunks.clear();
            self.meshes.clear();
            assert(self.slots() =~= Seq::<Option<Chunk>>::empty());
            return 0;
        }
        let ghost start = self.slots();
        let slot_count: usize = self.chunks.len();
        assert(start.len() == slot_count);
        let ghost players = self.players@;
        let ghost keep = stays_loaded(players);
        let ghost drop = falls_out(players);
        let ghost mut k: int = 0;
        let mut removed_count: usize = 0;
        let mut i: usize = 0;
        while i < self.chunks.len()
            invariant
                0 <= k <= start.len(),
                start.len() <= usize::MAX,
                i == start.take(k).filter(keep).len(),
                removed_count == start.take(k).filter(drop).len(),
                removed_count <= k,
                self.slots() == start.take(k).filter(keep) + start.skip(k),
                self.players@ == players,
                self.meshes@ == old(self).meshes@,
                keep == stays_loaded(players),
                drop == falls_out(players),
            decreases start.len() - k,
        {
            proof {
                assert(self.slots()[i as int] == start[k]);
                lemma_filter_take_step(start, keep, k);
                lemma_filter_take_step(start, drop, k);
                start.take(k + 1).lemma_filter_len(drop);
            }
            let kept = match &self.chunks[i] {
                Some(chunk) => {
                    if self.near_any_player(chunk.xy.x, chunk.xy.y) {
                        true
                    } else {
                        removed_count = removed_count + 1;
                        false
                    }
                },
                None => false,
            };
            if kept {
                i = i + 1;
            } else {
                let ghost before = self.slots();
                self.chunks.remove(i);
                proof {
                    assert(self.slots() =~= before.remove(i as int));
                }
            }
            proof {
                assert(self.slots() =~= start.take(k + 1).filter(keep) + start.skip(k + 1));
                k = k + 1;
            }
        }
        proof {
            start.take(k).lemma_filter_len(keep);
            assert(k == start.len());
            assert(start.take(k) =~= start);
            assert(self.slots() =~= start.filter(keep));
            start.lemma_filter_len(keep);
            assert forall|i: int| 0 <= i < self.slots().len() implies #[trigger] stays_loaded(players)(
                self.slots()[i],
            ) by {
                start.lemma_filter_pred(keep, i);
            }
        }
        if removed_count > 0 {
            self.generate_meshes();
        }
        removed_count
    }
}

/// The block at flat position `j` comes before `(x, y, z)` in the order that
/// goes through `x`, then `y`, then `z`, the last one fastest.
spec fn visited_before(j: int, x: int, y: int, z: int) -> bool {
    ||| index_x(j) < x
    ||| index_x(j) == x && index_y(j) < y
    ||| index_x(j) == x && index_y(j) == y && index_z(j) < z
}

/// The block at flat position `i` of the test chunk: stone up to the height
/// of its `x` coordinate, air above.
pub open spec fn wedge_block(i: int) -> BlockType {
    if index_z(i) <= index_x(i) {
        BlockType::BlockStone
    } else {
        BlockType::BlockAir
    }
}

impl ChunkManager {
    /// A test chunk at `xy`: a wedge of stone that rises one block with each
    /// step along `x`.
    pub fn generate(&self, xy: Vector2i) -> (c: Chunk)
        ensures
            c.xy == xy,
            forall|i: int| 0 <= i < BLOCKS_PER_CHUNK ==> #[trigger] c.blocks@[i] == wedge_block(i),
    {
        let mut blocks: [BlockType; BLOCKS_PER_CHUNK] = [BlockType::BlockAir; BLOCKS_PER_CHUNK];
        let mut x: usize = 0;
        while x < CHUNK_SIZE
            invariant
                x <= 16,
                forall|j: int|
                    0 <= j < BLOCKS_PER_CHUNK ==> #[trigger] blocks@[j] == if visited_before(j, x as int, 0, 0) {
                        wedge_block(j)
                    } else {
                        BlockType::BlockAir
                    },
            decreases 16 - x,
        {
            let mut y: usize = 0;
            while y < CHUNK_SIZE
                invariant
                    x < 16,
                    y <= 16,
                    forall|j: int|
                        0 <= j < BLOCKS_PER_CHUNK ==> #[trigger] blocks@[j] == if visited_before(j, x as int, y as int, 0) {
                            wedge_block(j)
                        } else {
                            BlockType::BlockAir
                        },
                decreases 16 - y,
            {
                let mut z: usize = 0;
                while z < CHUNK_HEIGHT
                    invariant
                        x < 16,
                        y < 16,
                        z <= 256,
                        forall|j: int|
                            0 <= j < BLOCKS_PER_CHUNK ==> #[trigger] blocks@[j] == if visited_before(
                                j,
                                x as int,
                                y as int,
                                z as int,
                            ) {
                                wedge_block(j)
                            } else {
                                BlockType::BlockAir
                            },
                    decreases 256 - z,
                {
                    proof {
                        lemma_block_index(x as int, y as int, z as int);
                    }
                    let ghost before = blocks@;
                    if z < x + 1 {
                        let index: usize = Chunk::index(x, y, z);
                        blocks[index] = BlockType::BlockStone;
                    } else if z < x {
                        let index: usize = Chunk::index(x, y, z);
                        blocks[index] = BlockType::BlockGrass;
                    }
                    proof {
                        assert forall|j: int| 0 <= j < BLOCKS_PER_CHUNK implies #[trigger] blocks@[j] == if visited_before(
                            j,
                            x as int,
                            y as int,
                            z + 1,
                        ) {
                            wedge_block(j)
                        } else {
                            BlockType::BlockAir
                        } by {
                            lemma_index_decode(j);
                            assert(before[j] == before[j]);
                        }
                    }
                    z = z + 1;
                }
                proof {
                    assert forall|j: int| 0 <= j < BLOCKS_PER_CHUNK implies #[trigger] blocks@[j] == if visited_before(
                        j,
                        x as int,
                        y + 1,
                        0,
                    ) {
                        wedge_block(j)
                    } else {
                        BlockType::BlockAir
                    } by {
                        lemma_index_decode(j);
                    }
                }
                y = y + 1;
            }
            proof {
                assert forall|j: int| 0 <= j < BLOCKS_PER_CHUNK implies #[trigger] blocks@[j] == if visited_before(
                    j,
                    x + 1,
                    0,
                    0,
                ) {
                    wedge_block(j)
                } else {
                    BlockType::BlockAir
                } by {
                    lemma_index_decode(j);
                }
            }
            x = x + 1;
        }
        proof {
            assert forall|i: int| 0 <= i < BLOCKS_PER_CHUNK implies #[trigger] blocks@[i] == wedge_block(i) by {
                lemma_index_decode(i);
            }
        }
        Chunk { blocks: blocks, xy: xy }
    }

    /// A chunk at `xy` generated from its noise samples, decorated with fresh
    /// random draws.
    ///
    /// Whatever the draws, the chunk is the one that `build_terrain` makes of
    /// the samples with some draws for its 256 columns.
    pub fn generate_noise(&self, xy: Vector2i, samples: &TerrainSamples) -> (c: Chunk)
        requires
            samples.wf(),
        ensures
            c.xy == xy,
            exists|rolls: Seq<ColumnRolls>|
                rolls.len() == 256 && c.blocks@ == #[trigger] terrain_blocks(samples.solid@, samples.ore@, rolls),
            forall|i: int|
                0 <= i < BLOCKS_PER_CHUNK ==> (#[trigger] c.blocks@[i] == BlockType::BlockAir
                    <==> !samples.solid@[i] && index_z(i) >= SEA_LEVEL),
    {
        let rolls = draw_column_rolls();
        let c = build_terrain(xy, samples, &rolls);
        assert(c.blocks@ == terrain_blocks(samples.solid@, samples.ore@, rolls@));
        c
    }
}

/// The slots once `chunk` is inserted: it takes the first empty slot; where
/// there is none, a new slot at the end unless there are `MAX_CHUNKS` slots
/// already, in which case the slots stay as they are.
pub open spec fn slots_after_insert(slots: Seq<Option<Chunk>>, chunk: Chunk) -> Seq<Option<Chunk>> {
    let e = ChunkManager::first_empty_slot(slots, slots.len() as int);
    if e >= 0 {
        slots.update(e, Some(chunk))
    } else if slots.len() < MAX_CHUNKS {
        slots.push(Some(chunk))
    } else {
        slots
    }
}

proof fn lemma_first_empty_slot_range(slots: Seq<Option<Chunk>>, n: int)
    requires
        0 <= n,
    ensures
        ChunkManager::first_empty_slot(slots, n) < n,
        ChunkManager::first_empty_slot(slots, n) >= 0 ==> slots[ChunkManager::first_empty_slot(slots, n)] is None,
    decreases n,
{
    if n > 0 {
        lemma_first_empty_slot_range(slots, n - 1);
    }
}

proof fn lemma_first_chunk_at_found(slots: Seq<Option<Chunk>>, xy: Vector2i, i: int, n: int)
    requires
        0 <= i < n,
        holds_chunk_at(slots[i], xy),
    ensures
        ChunkManager::first_chunk_at(slots, xy, n) >= 0,
    decreases n,
{
    if i < n - 1 {
        lemma_first_chunk_at_found(slots, xy, i, n - 1);
    }
}

/// A chunk that finds room among the slots is then found at its coordinates.
pub proof fn lemma_inserted_chunk_is_found(slots: Seq<Option<Chunk>>, chunk: Chunk)
    requires
        ChunkManager::first_empty_slot(slots, slots.len() as int) >= 0 || slots.len() < MAX_CHUNKS,
    ensures
        ChunkManager::first_chunk_at(
            slots_after_insert(slots, chunk),
            chunk.xy,
            slots_after_insert(slots, chunk).len() as int,
        ) >= 0,
        is_loaded(slots_after_insert(slots, chunk), chunk.xy.x as int, chunk.xy.y as int),
{
    let after = slots_after_insert(slots, chunk);
    let e = ChunkManager::first_empty_slot(slots, slots.len() as int);
    lemma_first_empty_slot_range(slots, slots.len() as int);
    let i = if e >= 0 { e } else { slots.len() as int };
    assert(holds_chunk_at(after[i], chunk.xy));
    assert(holds_chunk_xy(after[i], chunk.xy.x as int, chunk.xy.y as int));
    lemma_first_chunk_at_found(after, chunk.xy, i, after.len() as int);
}

proof fn lemma_first_named_found(players: Seq<Player>, name: Seq<char>, i: int, n: int)
    requires
        0 <= i < n,
        is_named(players[i], name),
    ensures
        ChunkManager::first_named(players, name, n) >= 0,
    decreases n,
{
    if i < n - 1 {
        lemma_first_named_found(players, name, i, n - 1);
    }
}

proof fn lemma_first_named_absent(players: Seq<Player>, name: Seq<char>, n: int)
    requires
        n <= players.len(),
        forall|i: int| 0 <= i < n ==> !is_named(#[trigger] players[i], name),
    ensures
        ChunkManager::first_named(players, name, n) < 0,
    decreases n,
{
    if n > 0 {
        lemma_first_named_absent(players, name, n - 1);
    }
}

/// A player added under `name` is then found under that name.
pub proof fn lemma_added_player_is_found(players: Seq<Player>, pos: Vector3i, name: String)
    ensures
        ChunkManager::first_named(
            players.push(Player { pos, name: Some(name) }),
            name@,
            players.len() + 1 as int,
        ) >= 0,
{
    let after = players.push(Player { pos, name: Some(name) });
    assert(is_named(after[players.len() as int], name@));
    lemma_first_named_found(after, name@, players.len() as int, players.len() + 1 as int);
}

/// Once the players called `name` are removed, no player is found under that
/// name.
pub proof fn lemma_removed_player_is_gone(players: Seq<Player>, name: Seq<char>)
    ensures
        ChunkManager::first_named(
            players.filter(not_named(name)),
            name,
            players.filter(not_named(name)).len() as int,
        ) < 0,
{
    let kept = players.filter(not_named(name));
    assert forall|i: int| 0 <= i < kept.len() implies !is_named(#[trigger] kept[i], name) by {
        players.lemma_filter_pred(not_named(name), i);
    }
    lemma_first_named_absent(kept, name, kept.len() as int);
}

/// `e` is a chunk that is not loaded and that lies within `VIEW_DISTANCE` of
/// the chunk `(px, py)`.
spec fn wanted_from(slots: Seq<Option<Chunk>>, px: int, py: int, e: Vector2i) -> bool {
    &&& !is_loaded(slots, e.x as int, e.y as int)
    &&& (px - e.x) * (px - e.x) + (py - e.y) * (py - e.y) <= 16
}

proof fn lemma_chunk_coord_range(a: int)
    requires
        i32::MIN <= a <= i32::MAX,
    ensures
        -134217728 <= chunk_coord(a) <= 134217728,
{
}

proof fn lemma_wanted_row(slots: Seq<Option<Chunk>>, px: int, py: int, dx: int, n: int)
    requires
        -134217728 <= px <= 134217728,
        -134217728 <= py <= 134217728,
        -4 <= dx <= 4,
        n <= 9,
    ensures
        forall|i: int|
            0 <= i < wanted_row(slots, px, py, dx, n).len() ==> wanted_from(
                slots,
                px,
                py,
                #[trigger] wanted_row(slots, px, py, dx, n)[i],
            ),
    decreases n,
{
    if n > 0 {
        lemma_wanted_row(slots, px, py, dx, n - 1);
        let dz = n - 5;
        let a = wanted_at(slots, px, py, dx, dz);
        if a.len() > 0 {
            let e = a[0];
            assert((px - (px + dx)) * (px - (px + dx)) + (py - (py + dz)) * (py - (py + dz)) == dx * dx + dz * dz)
                by (nonlinear_arith);
            assert(wanted_from(slots, px, py, e));
        }
        let w = wanted_row(slots, px, py, dx, n);
        let w0 = wanted_row(slots, px, py, dx, n - 1);
        assert forall|i: int| 0 <= i < w.len() implies wanted_from(slots, px, py, #[trigger] w[i]) by {
            if i < w0.len() {
                assert(w[i] == w0[i]);
            } else {
                assert(w[i] == a[i - w0.len()]);
            }
        }
    }
}

proof fn lemma_wanted_disc(slots: Seq<Option<Chunk>>, px: int, py: int, n: int)
    requires
        -134217728 <= px <= 134217728,
        -134217728 <= py <= 134217728,
        n <= 9,
    ensures
        forall|i: int|
            0 <= i < wanted_disc(slots, px, py, n).len() ==> wanted_from(
                slots,
                px,
                py,
                #[trigger] wanted_disc(slots, px, py, n)[i],
            ),
    decreases n,
{
    if n > 0 {
        lemma_wanted_disc(slots, px, py, n - 1);
        lemma_wanted_row(slots, px, py, n - 5, 9);
        let d = wanted_disc(slots, px, py, n);
        let d0 = wanted_disc(slots, px, py, n - 1);
        let r = wanted_row(slots, px, py, n - 5, 9);
        assert forall|i: int| 0 <= i < d.len() implies wanted_from(slots, px, py, #[trigger] d[i]) by {
            if i < d0.len() {
                assert(d[i] == d0[i]);
            } else {
                assert(d[i] == r[i - d0.len()]);
            }
        }
    }
}

/// Each chunk that the players ask to load is not loaded, and lies within
/// `VIEW_DISTANCE` of some player, so that `remove_chunks` would keep it.
pub proof fn lemma_chunks_to_load_are_wanted(slots: Seq<Option<Chunk>>, players: Seq<Player>, n: int)
    requires
        n <= players.len(),
    ensures
        forall|i: int|
            0 <= i < chunks_to_load(slots, players, n).len() ==> {
                let e = #[trigger] chunks_to_load(slots, players, n)[i];
                &&& !is_loaded(slots, e.x as int, e.y as int)
                &&& near_some_player(players, e.x as int, e.y as int)
                &&& forall|c: Chunk| c.xy == e ==> #[trigger] stays_loaded(players)(Some(c))
            },
    decreases n,
{
    if n > 0 {
        lemma_chunks_to_load_are_wanted(slots, players, n - 1);
        let p = players[n - 1];
        let px = chunk_coord(p.pos.x as int);
        let py = chunk_coord(p.pos.y as int);
        lemma_chunk_coord_range(p.pos.x as int);
        lemma_chunk_coord_range(p.pos.y as int);
        lemma_wanted_disc(slots, px, py, 9);
        let c = chunks_to_load(slots, players, n);
        let c0 = chunks_to_load(slots, players, n - 1);
        let d = wanted_disc(slots, px, py, 9);
        assert forall|i: int| 0 <= i < c.len() implies {
            let e = #[trigger] c[i];
            &&& !is_loaded(slots, e.x as int, e.y as int)
            &&& near_some_player(players, e.x as int, e.y as int)
            &&& forall|c: Chunk| c.xy == e ==> #[trigger] stays_loaded(players)(Some(c))
        } by {
            if i < c0.len() {
                assert(c[i] == c0[i]);
            } else {
                let e = c[i];
                assert(e == d[i - c0.len()]);
                assert(wanted_from(slots, px, py, e));
                assert(near_player(players[n - 1], e.x as int, e.y as int));
            }
        }
    }
}

/// Every slot holds a chunk and there are `MAX_CHUNKS` slots or more: an
/// inserted chunk is dropped.
pub open spec fn slots_full(slots: Seq<Option<Chunk>>) -> bool {
    &&& ChunkManager::first_empty_slot(slots, slots.len() as int) < 0
    &&& slots.len() >= MAX_CHUNKS
}

/// `after` still holds every chunk of `before`, in the same slot.
pub open spec fn keeps_chunks(before: Seq<Option<Chunk>>, after: Seq<Option<Chunk>>) -> bool {
    &&& before.len() <= after.len()
    &&& forall|k: int| 0 <= k < before.len() && (#[trigger] before[k]) is Some ==> after[k] == before[k]
}

/// Each chunk of `after` that `before` does not hold in its slot has chunk
/// coordinates listed in `list`, and is one that `build_terrain` makes of what
/// `sample_terrain` gives at those coordinates, with some draws.
pub open spec fn new_chunks_from<F: Fn(Vector2i) -> TerrainSamples>(
    before: Seq<Option<Chunk>>,
    after: Seq<Option<Chunk>>,
    list: Seq<Vector2i>,
    sample_terrain: F,
) -> bool {
    forall|k: int|
        0 <= k < after.len() && (#[trigger] after[k]) is Some && !(k < before.len() && before[k] is Some)
            ==> generated_from(after[k]->0, list, sample_terrain)
}

/// `c` has chunk coordinates listed in `list` and is one that `build_terrain`
/// makes of what `sample_terrain` gives at those coordinates, with some draws.
pub open spec fn generated_from<F: Fn(Vector2i) -> TerrainSamples>(
    c: Chunk,
    list: Seq<Vector2i>,
    sample_terrain: F,
) -> bool {
    &&& exists|i: int| 0 <= i < list.len() && #[trigger] list[i] == c.xy
    &&& exists|s: TerrainSamples, rolls: Seq<ColumnRolls>|
        call_ensures(sample_terrain, (c.xy,), s) && rolls.len() == 256 && c.blocks@ == #[trigger] terrain_blocks(
            s.solid@,
            s.ore@,
            rolls,
        )
}

proof fn lemma_insert_keeps_chunks(slots: Seq<Option<Chunk>>, chunk: Chunk)
    ensures
        keeps_chunks(slots, slots_after_insert(slots, chunk)),
        slots_full(slots) ==> slots_after_insert(slots, chunk) == slots,
        !slots_full(slots) ==> is_loaded(slots_after_insert(slots, chunk), chunk.xy.x as int, chunk.xy.y as int),
        forall|k: int|
            0 <= k < slots_after_insert(slots, chunk).len() ==> (#[trigger] slots_after_insert(slots, chunk)[k]
                == Some(chunk) || (k < slots.len() && slots_after_insert(slots, chunk)[k] == slots[k])),
{
    lemma_first_empty_slot_range(slots, slots.len() as int);
    if !slots_full(slots) {
        lemma_inserted_chunk_is_found(slots, chunk);
    }
}

proof fn lemma_first_chunk_at_holds(slots: Seq<Option<Chunk>>, xy: Vector2i, n: int)
    requires
        0 <= n <= slots.len(),
        ChunkManager::first_chunk_at(slots, xy, n) >= 0,
    ensures
        is_loaded(slots, xy.x as int, xy.y as int),
    decreases n,
{
    if ChunkManager::first_chunk_at(slots, xy, n - 1) >= 0 {
        lemma_first_chunk_at_holds(slots, xy, n - 1);
    } else {
        assert(holds_chunk_xy(slots[n - 1], xy.x as int, xy.y as int));
    }
}

impl ChunkManager {
    /// Generates and inserts, one after the other, the chunks that the players
    /// ask for (`find_chunks_to_load`), skipping those already loaded. Each
    /// chunk is made by `generate_noise` from what `sample_terrain` gives at its
    /// coordinates.
    ///
    /// The slots end as `slots_after_loading` gives them: the positions asked
    /// for are taken in list order, and each one not yet loaded gets its chunk
    /// through `insert_chunk`.
    ///
    /// Afterwards each chunk asked for is loaded, unless the slots are full,
    /// and is loaded in any case where the slots had room for every position
    /// asked for that was not loaded. The chunks loaded before stay in their
    /// slots; every other chunk is one asked for, at coordinates that no other
    /// chunk has.
    pub fn load_chunks<F: Fn(Vector2i) -> TerrainSamples>(&mut self, sample_terrain: F)
        requires
            forall|xy: Vector2i| call_requires(sample_terrain, (xy,)),
            forall|xy: Vector2i, s: TerrainSamples| call_ensures(sample_terrain, (xy,), s) ==> s.wf(),
        ensures
            ({
                let list = chunks_to_load(old(self).slots(), old(self).player_list(), old(self).player_list().len() as int);
                &&& forall|i: int|
                    0 <= i < list.len() ==> is_loaded(final(self).slots(), (#[trigger] list[i]).x as int, list[i].y as int)
                        || slots_full(final(self).slots())
                &&& keeps_chunks(old(self).slots(), final(self).slots())
                &&& new_chunks_from(old(self).slots(), final(self).slots(), list, sample_terrain)
                &&& new_chunks_unique(old(self).slots(), final(self).slots())
            }),
            ({
                let list = chunks_to_load(old(self).slots(), old(self).player_list(), old(self).player_list().len() as int);
                exists|made: Seq<Chunk>|
                    made_for(old(self).slots(), list, made, sample_terrain) && final(self).slots()
                        == #[trigger] slots_after_loading(old(self).slots(), list, made, list.len() as int)
            }),
            !slots_full(final(self).slots()) ==> chunks_to_load(
                final(self).slots(),
                final(self).player_list(),
                final(self).player_list().len() as int,
            ) == Seq::<Vector2i>::empty(),
            ({
                let list = chunks_to_load(old(self).slots(), old(self).player_list(), old(self).player_list().len() as int);
                old(self).slots().len() <= MAX_CHUNKS && wanted_positions(old(self).slots(), list).len() <= room(
                    old(self).slots(),
                ) ==> forall|i: int|
                    0 <= i < list.len() ==> is_loaded(final(self).slots(), (#[trigger] list[i]).x as int, list[i].y as int)
            }),
            old(self).slots().len() <= MAX_CHUNKS ==> final(self).slots().len() <= MAX_CHUNKS,
            final(self).player_list() == old(self).player_list(),
            final(self).mesh_list() == old(self).mesh_list(),
    {
        let to_load = self.find_chunks_to_load();
        let ghost list = to_load@;
        let ghost start = self.slots();
        let ghost wanted = wanted_positions(start, list);
        let ghost mut placed: Set<Vector2i> = Set::empty();
        let ghost mut made: Seq<Chunk> = Seq::empty();
        proof {
            list.to_set().lemma_len_filter(|v: Vector2i| !is_loaded(start, v.x as int, v.y as int));
        }
        let mut i: usize = 0;
        while i < to_load.len()
            invariant
                i <= list.len(),
                list == to_load@,
                list == chunks_to_load(start, old(self).player_list(), old(self).player_list().len() as int),
                start == old(self).slots(),
                forall|xy: Vector2i| call_requires(sample_terrain, (xy,)),
                forall|xy: Vector2i, s: TerrainSamples| call_ensures(sample_terrain, (xy,), s) ==> s.wf(),
                forall|j: int|
                    0 <= j < i ==> is_loaded(self.slots(), (#[trigger] list[j]).x as int, list[j].y as int)
                        || slots_full(self.slots()),
                keeps_chunks(start, self.slots()),
                new_chunks_from(start, self.slots(), list, sample_terrain),
                new_chunks_unique(start, self.slots()),
                wanted == wanted_positions(start, list),
                made.len() == i,
                self.slots() == slots_after_loading(start, list, made, i as int),
                forall|j: int|
                    0 <= j < i && !is_loaded(slots_after_loading(start, list, made, j), list[j].x as int, list[j].y as int)
                        ==> sampled_chunk(#[trigger] made[j], list[j], sample_terrain),
                wanted.finite(),
                placed.finite(),
                placed.subset_of(wanted),
                forall|v: Vector2i| #[trigger] placed.contains(v) ==> is_loaded(self.slots(), v.x as int, v.y as int),
                start.len() <= MAX_CHUNKS ==> placed.len() + room(self.slots()) == room(start),
                start.len() <= MAX_CHUNKS ==> self.slots().len() <= MAX_CHUNKS,
                self.player_list() == old(self).player_list(),
                self.mesh_list() == old(self).mesh_list(),
            decreases list.len() - i,
        {
            let chunk_xy = to_load[i];
            let ghost before = self.slots();
            let loaded = self.find_chunk(chunk_xy).is_some();
            if !loaded {
                proof {
                    lemma_first_chunk_at_absent(before, chunk_xy, before.len() as int);
                }
                let samples = sample_terrain(chunk_xy);
                let chunk = self.generate_noise(chunk_xy, &samples);
                self.insert_chunk(chunk);
                proof {
                    lemma_insert_keeps_chunks(before, chunk);
                    let after = self.slots();
                    assert forall|j: int| 0 <= j < i + 1 implies is_loaded(after, (#[trigger] list[j]).x as int, list[j].y as int)
                        || slots_full(after) by {
                        if j < i {
                            if !slots_full(before) {
                                let w = choose|w: int| 0 <= w < before.len() && holds_chunk_xy(#[trigger] before[w], list[j].x as int, list[j].y as int);
                                assert(holds_chunk_xy(after[w], list[j].x as int, list[j].y as int));
                            }
                        }
                    }
                    assert forall|k: int|
                        0 <= k < after.len() && (#[trigger] after[k]) is Some && !(k < start.len() && start[k] is Some)
                        implies generated_from(after[k]->0, list, sample_terrain) by {
                        if after[k] == Some(chunk) {
                            assert(list[i as int] == chunk.xy);
                        } else {
                            assert(before[k] == after[k]);
                        }
                    }
                    lemma_insert_new_unique(start, before, chunk);
                    if start.len() <= MAX_CHUNKS {
                        lemma_insert_room(before, chunk);
                    }
                    assert(!is_loaded(before, chunk_xy.x as int, chunk_xy.y as int));
                    assert(!is_loaded(start, chunk_xy.x as int, chunk_xy.y as int)) by {
                        if is_loaded(start, chunk_xy.x as int, chunk_xy.y as int) {
                            lemma_keeps_loaded(start, before, chunk_xy.x as int, chunk_xy.y as int);
                        }
                    }
                    assert(list.to_set().contains(list[i as int]));
                    assert(wanted.contains(chunk_xy));
                    assert(!placed.contains(chunk_xy));
                    assert forall|v: Vector2i| #[trigger] placed.contains(v) implies is_loaded(after, v.x as int, v.y as int) by {
                        lemma_keeps_loaded(before, after, v.x as int, v.y as int);
                    }
                    if !slots_full(before) {
                        placed = placed.insert(chunk_xy);
                    }
                    lemma_made_step(start, list, made, chunk, i as int, sample_terrain);
                    made = made.push(chunk);
                }
            } else {
                proof {
                    lemma_first_chunk_at_holds(before, chunk_xy, before.len() as int);
                    let filler = Chunk { xy: chunk_xy, ..arbitrary() };
                    lemma_made_step(start, list, made, filler, i as int, sample_terrain);
                    made = made.push(filler);
                }
            }
            i = i + 1;
        }
        proof {
            assert(made_for(start, list, made, sample_terrain));
            if !slots_full(self.slots()) {
                lemma_nothing_left_to_load(start, self.slots(), self.player_list(), self.player_list().len() as int);
            }
            if start.len() <= MAX_CHUNKS && wanted.len() <= room(start) {
                assert forall|j: int| 0 <= j < list.len() implies is_loaded(
                    self.slots(),
                    (#[trigger] list[j]).x as int,
                    list[j].y as int,
                ) by {
                    let v = list[j];
                    if !is_loaded(self.slots(), v.x as int, v.y as int) {
                        lemma_insert_room(self.slots(), Chunk { blocks: [BlockType::BlockAir; BLOCKS_PER_CHUNK], xy: v });
                        assert(!is_loaded(start, v.x as int, v.y as int)) by {
                            if is_loaded(start, v.x as int, v.y as int) {
                                lemma_keeps_loaded(start, self.slots(), v.x as int, v.y as int);
                            }
                        }
                        assert(list.to_set().contains(v));
                        assert(wanted.contains(v));
                        assert(!placed.contains(v));
                        vstd::set_lib::lemma_len_subset(placed.insert(v), wanted);
                    }
                }
            }
        }
    }
}

proof fn lemma_keeps_loaded(a: Seq<Option<Chunk>>, b: Seq<Option<Chunk>>, x: int, y: int)
    requires
        keeps_chunks(a, b),
        is_loaded(a, x, y),
    ensures
        is_loaded(b, x, y),
{
    let w = choose|w: int| 0 <= w < a.len() && holds_chunk_xy(#[trigger] a[w], x, y);
    assert(holds_chunk_xy(b[w], x, y));
}

proof fn lemma_nothing_left_in_row(
    a: Seq<Option<Chunk>>,
    b: Seq<Option<Chunk>>,
    px: int,
    py: int,
    dx: int,
    n: int,
)
    requires
        keeps_chunks(a, b),
        -134217728 <= px <= 134217728,
        -134217728 <= py <= 134217728,
        -4 <= dx <= 4,
        n <= 9,
        forall|i: int|
            0 <= i < wanted_row(a, px, py, dx, n).len() ==> is_loaded(
                b,
                (#[trigger] wanted_row(a, px, py, dx, n)[i]).x as int,
                wanted_row(a, px, py, dx, n)[i].y as int,
            ),
    ensures
        wanted_row(b, px, py, dx, n) == Seq::<Vector2i>::empty(),
    decreases n,
{
    if n > 0 {
        let w = wanted_row(a, px, py, dx, n);
        let w0 = wanted_row(a, px, py, dx, n - 1);
        let at = wanted_at(a, px, py, dx, n - 5);
        assert forall|i: int| 0 <= i < w0.len() implies is_loaded(b, (#[trigger] w0[i]).x as int, w0[i].y as int) by {
            assert(w[i] == w0[i]);
        }
        lemma_nothing_left_in_row(a, b, px, py, dx, n - 1);
        let dz = n - 5;
        if dx * dx + dz * dz <= 16 && !is_loaded(b, px + dx, py + dz) {
            if is_loaded(a, px + dx, py + dz) {
                lemma_keeps_loaded(a, b, px + dx, py + dz);
            }
            assert(w[w0.len() as int] == at[0]);
        }
        assert(wanted_row(b, px, py, dx, n) =~= Seq::<Vector2i>::empty());
    }
}

proof fn lemma_nothing_left_in_disc(a: Seq<Option<Chunk>>, b: Seq<Option<Chunk>>, px: int, py: int, n: int)
    requires
        keeps_chunks(a, b),
        -134217728 <= px <= 134217728,
        -134217728 <= py <= 134217728,
        n <= 9,
        forall|i: int|
            0 <= i < wanted_disc(a, px, py, n).len() ==> is_loaded(
                b,
                (#[trigger] wanted_disc(a, px, py, n)[i]).x as int,
                wanted_disc(a, px, py, n)[i].y as int,
            ),
    ensures
        wanted_disc(b, px, py, n) == Seq::<Vector2i>::empty(),
    decreases n,
{
    if n > 0 {
        let d = wanted_disc(a, px, py, n);
        let d0 = wanted_disc(a, px, py, n - 1);
        let r = wanted_row(a, px, py, n - 5, 9);
        assert forall|i: int| 0 <= i < d0.len() implies is_loaded(b, (#[trigger] d0[i]).x as int, d0[i].y as int) by {
            assert(d[i] == d0[i]);
        }
        assert forall|i: int| 0 <= i < r.len() implies is_loaded(b, (#[trigger] r[i]).x as int, r[i].y as int) by {
            assert(d[d0.len() + i] == r[i]);
        }
        lemma_nothing_left_in_disc(a, b, px, py, n - 1);
        lemma_nothing_left_in_row(a, b, px, py, n - 5, 9);
        assert(wanted_disc(b, px, py, n) =~= Seq::<Vector2i>::empty());
    }
}

/// Once every chunk that the players ask for is loaded, and the slots keep
/// their chunks, the players ask for nothing more.
pub proof fn lemma_nothing_left_to_load(a: Seq<Option<Chunk>>, b: Seq<Option<Chunk>>, players: Seq<Player>, n: int)
    requires
        keeps_chunks(a, b),
        n <= players.len(),
        forall|i: int|
            0 <= i < chunks_to_load(a, players, n).len() ==> is_loaded(
                b,
                (#[trigger] chunks_to_load(a, players, n)[i]).x as int,
                chunks_to_load(a, players, n)[i].y as int,
            ),
    ensures
        chunks_to_load(b, players, n) == Seq::<Vector2i>::empty(),
    decreases n,
{
    if n > 0 {
        let c = chunks_to_load(a, players, n);
        let c0 = chunks_to_load(a, players, n - 1);
        let p = players[n - 1];
        let px = chunk_coord(p.pos.x as int);
        let py = chunk_coord(p.pos.y as int);
        lemma_chunk_coord_range(p.pos.x as int);
        lemma_chunk_coord_range(p.pos.y as int);
        let d = wanted_disc(a, px, py, 9);
        assert forall|i: int| 0 <= i < c0.len() implies is_loaded(b, (#[trigger] c0[i]).x as int, c0[i].y as int) by {
            assert(c[i] == c0[i]);
        }
        assert forall|i: int| 0 <= i < d.len() implies is_loaded(b, (#[trigger] d[i]).x as int, d[i].y as int) by {
            assert(c[c0.len() + i] == d[i]);
        }
        lemma_nothing_left_to_load(a, b, players, n - 1);
        lemma_nothing_left_in_disc(a, b, px, py, 9);
        assert(chunks_to_load(b, players, n) =~= Seq::<Vector2i>::empty());
    }
}

/// Slot `k` of `after` holds a chunk that slot `k` of `before` did not hold.
pub open spec fn is_new_slot(before: Seq<Option<Chunk>>, after: Seq<Option<Chunk>>, k: int) -> bool {
    after[k] is Some && !(k < before.len() && before[k] is Some)
}

/// Each chunk of `after` that `before` does not hold in its slot has chunk
/// coordinates that no other chunk of `after` has.
pub open spec fn new_chunks_unique(before: Seq<Option<Chunk>>, after: Seq<Option<Chunk>>) -> bool {
    forall|k1: int, k2: int|
        #![trigger is_new_slot(before, after, k1), after[k2]]
        0 <= k1 < after.len() && 0 <= k2 < after.len() && k1 != k2 && is_new_slot(before, after, k1)
            && after[k2] is Some ==> after[k1]->0.xy != after[k2]->0.xy
}

proof fn lemma_first_chunk_at_absent(slots: Seq<Option<Chunk>>, xy: Vector2i, n: int)
    requires
        0 <= n <= slots.len(),
        ChunkManager::first_chunk_at(slots, xy, n) < 0,
    ensures
        forall|k: int| 0 <= k < n ==> !holds_chunk_at(#[trigger] slots[k], xy),
    decreases n,
{
    if n > 0 {
        lemma_first_chunk_at_absent(slots, xy, n - 1);
    }
}

/// Inserting a chunk whose coordinates no slot holds keeps the new chunks
/// apart from every other chunk.
proof fn lemma_insert_new_unique(start: Seq<Option<Chunk>>, before: Seq<Option<Chunk>>, chunk: Chunk)
    requires
        new_chunks_unique(start, before),
        keeps_chunks(start, before),
        forall|k: int| 0 <= k < before.len() ==> !holds_chunk_at(#[trigger] before[k], chunk.xy),
    ensures
        new_chunks_unique(start, slots_after_insert(before, chunk)),
{
    let after = slots_after_insert(before, chunk);
    let e = ChunkManager::first_empty_slot(before, before.len() as int);
    lemma_first_empty_slot_range(before, before.len() as int);
    assert forall|k1: int, k2: int|
        #![trigger is_new_slot(start, after, k1), after[k2]]
        0 <= k1 < after.len() && 0 <= k2 < after.len() && k1 != k2 && is_new_slot(start, after, k1)
            && after[k2] is Some implies after[k1]->0.xy != after[k2]->0.xy by {
        let p = if e >= 0 { e } else { before.len() as int };
        if after == before {
            assert(is_new_slot(start, before, k1));
        } else if k1 == p {
            assert(before[k2] == after[k2]);
            assert(!holds_chunk_at(before[k2], chunk.xy));
        } else if k2 == p {
            assert(before[k1] == after[k1]);
            assert(!holds_chunk_at(before[k1], chunk.xy));
        } else {
            assert(before[k1] == after[k1]);
            assert(before[k2] == after[k2]);
            assert(is_new_slot(start, before, k1));
        }
    }
}

/// How many of the slots below `n` are empty.
pub open spec fn empty_slot_count(slots: Seq<Option<Chunk>>, n: int) -> int
    decreases n,
{
    if n <= 0 {
        0
    } else {
        empty_slot_count(slots, n - 1) + if slots[n - 1] is None { 1int } else { 0int }
    }
}

/// How many more chunks the slots take: the empty slots, and the slots that
/// can still be added up to `MAX_CHUNKS`.
pub open spec fn room(slots: Seq<Option<Chunk>>) -> int {
    empty_slot_count(slots, slots.len() as int) + MAX_CHUNKS - slots.len()
}

/// The positions in `list` that `slots` does not hold.
pub open spec fn wanted_positions(slots: Seq<Option<Chunk>>, list: Seq<Vector2i>) -> Set<Vector2i> {
    list.to_set().filter(|v: Vector2i| !is_loaded(slots, v.x as int, v.y as int))
}

proof fn lemma_empty_slot_count_range(slots: Seq<Option<Chunk>>, n: int)
    requires
        0 <= n <= slots.len(),
    ensures
        0 <= empty_slot_count(slots, n) <= n,
        (empty_slot_count(slots, n) == 0) == (ChunkManager::first_empty_slot(slots, n) < 0),
    decreases n,
{
    if n > 0 {
        lemma_empty_slot_count_range(slots, n - 1);
    }
}

proof fn lemma_empty_slot_count_update(slots: Seq<Option<Chunk>>, e: int, c: Chunk, n: int)
    requires
        0 <= e < slots.len(),
        0 <= n <= slots.len(),
        slots[e] is None,
    ensures
        empty_slot_count(slots.update(e, Some(c)), n) == empty_slot_count(slots, n) - if e < n { 1int } else { 0int },
    decreases n,
{
    if n > 0 {
        lemma_empty_slot_count_update(slots, e, c, n - 1);
    }
}

proof fn lemma_empty_slot_count_push(slots: Seq<Option<Chunk>>, c: Chunk, n: int)
    requires
        0 <= n <= slots.len(),
    ensures
        empty_slot_count(slots.push(Some(c)), n) == empty_slot_count(slots, n),
        n == slots.len() ==> empty_slot_count(slots.push(Some(c)), n + 1) == empty_slot_count(slots, n),
    decreases n,
{
    let p = slots.push(Some(c));
    if n > 0 {
        lemma_empty_slot_count_push(slots, c, n - 1);
        assert(p[n - 1] == slots[n - 1]);
        assert(empty_slot_count(p, n) == empty_slot_count(slots, n));
    }
    assert(p[n] is Some ==> empty_slot_count(p, n + 1) == empty_slot_count(p, n));
    if n == slots.len() {
        assert(p[n] is Some);
    }
}

/// Inserting a chunk takes one unit of room where there is some, and leaves
/// the slots as they are where there is none.
proof fn lemma_insert_room(slots: Seq<Option<Chunk>>, chunk: Chunk)
    requires
        slots.len() <= MAX_CHUNKS,
    ensures
        room(slots) >= 0,
        slots_full(slots) <==> room(slots) == 0,
        !slots_full(slots) ==> room(slots_after_insert(slots, chunk)) == room(slots) - 1,
        slots_after_insert(slots, chunk).len() <= MAX_CHUNKS,
{
    let n = slots.len() as int;
    lemma_empty_slot_count_range(slots, n);
    lemma_first_empty_slot_range(slots, n);
    let e = ChunkManager::first_empty_slot(slots, n);
    if e >= 0 {
        lemma_empty_slot_count_update(slots, e, chunk, n);
    } else if n < MAX_CHUNKS {
        lemma_empty_slot_count_push(slots, chunk, n);
    }
}

/// The slots once the chunks at the positions `list[0]` up to `list[n - 1]`
/// have been loaded in turn: a position already loaded is skipped, and at any
/// other position `i` the chunk `made[i]` is inserted (`slots_after_insert`).
pub open spec fn slots_after_loading(
    slots: Seq<Option<Chunk>>,
    list: Seq<Vector2i>,
    made: Seq<Chunk>,
    n: int,
) -> Seq<Option<Chunk>>
    decreases n,
{
    if n <= 0 {
        slots
    } else {
        let before = slots_after_loading(slots, list, made, n - 1);
        if is_loaded(before, list[n - 1].x as int, list[n - 1].y as int) {
            before
        } else {
            slots_after_insert(before, made[n - 1])
        }
    }
}

/// `c` is one that `build_terrain` makes of what `sample_terrain` gives at the
/// coordinates `xy`, with some draws, and it lies at `xy`.
pub open spec fn sampled_chunk<F: Fn(Vector2i) -> TerrainSamples>(c: Chunk, xy: Vector2i, sample_terrain: F) -> bool {
    &&& c.xy == xy
    &&& exists|s: TerrainSamples, rolls: Seq<ColumnRolls>|
        call_ensures(sample_terrain, (xy,), s) && rolls.len() == 256 && c.blocks@ == #[trigger] terrain_blocks(
            s.solid@,
            s.ore@,
            rolls,
        )
}

/// The chunks `made` are those generated for the positions of `list` that
/// were not loaded when loading reached them.
pub open spec fn made_for<F: Fn(Vector2i) -> TerrainSamples>(
    slots: Seq<Option<Chunk>>,
    list: Seq<Vector2i>,
    made: Seq<Chunk>,
    sample_terrain: F,
) -> bool {
    &&& made.len() == list.len()
    &&& forall|i: int|
        0 <= i < list.len() && !is_loaded(
            slots_after_loading(slots, list, made, i),
            list[i].x as int,
            list[i].y as int,
        ) ==> sampled_chunk(#[trigger] made[i], list[i], sample_terrain)
}

proof fn lemma_slots_after_loading_prefix(
    slots: Seq<Option<Chunk>>,
    list: Seq<Vector2i>,
    a: Seq<Chunk>,
    b: Seq<Chunk>,
    n: int,
)
    requires
        n <= a.len(),
        n <= b.len(),
        forall|k: int| 0 <= k < n ==> a[k] == b[k],
    ensures
        slots_after_loading(slots, list, a, n) == slots_after_loading(slots, list, b, n),
    decreases n,
{
    if n > 0 {
        lemma_slots_after_loading_prefix(slots, list, a, b, n - 1);
    }
}

/// Loading one more position extends `made` by one chunk without changing
/// what loading the earlier positions gives.
proof fn lemma_made_step<F: Fn(Vector2i) -> TerrainSamples>(
    start: Seq<Option<Chunk>>,
    list: Seq<Vector2i>,
    made: Seq<Chunk>,
    c: Chunk,
    i: int,
    sample_terrain: F,
)
    requires
        0 <= i < list.len(),
        made.len() == i,
        forall|j: int|
            0 <= j < i && !is_loaded(slots_after_loading(start, list, made, j), list[j].x as int, list[j].y as int)
                ==> sampled_chunk(#[trigger] made[j], list[j], sample_terrain),
    ensures
        forall|j: int| 0 <= j <= i ==> #[trigger] slots_after_loading(start, list, made.push(c), j)
            == slots_after_loading(start, list, made, j),
        slots_after_loading(start, list, made.push(c), i + 1) == if is_loaded(
            slots_after_loading(start, list, made, i),
            list[i].x as int,
            list[i].y as int,
        ) {
            slots_after_loading(start, list, made, i)
        } else {
            slots_after_insert(slots_after_loading(start, list, made, i), c)
        },
        forall|j: int|
            0 <= j < i && !is_loaded(
                slots_after_loading(start, list, made.push(c), j),
                list[j].x as int,
                list[j].y as int,
            ) ==> sampled_chunk(#[trigger] made.push(c)[j], list[j], sample_terrain),
{
    let m2 = made.push(c);
    assert forall|j: int| 0 <= j <= i implies #[trigger] slots_after_loading(start, list, m2, j)
        == slots_after_loading(start, list, made, j) by {
        lemma_slots_after_loading_prefix(start, list, m2, made, j);
    }
    assert(slots_after_loading(start, list, m2, i) == slots_after_loading(start, list, made, i));
    assert(m2[i] == c);
    assert forall|j: int|
        0 <= j < i && !is_loaded(slots_after_loading(start, list, m2, j), list[j].x as int, list[j].y as int)
        implies sampled_chunk(#[trigger] m2[j], list[j], sample_terrain) by {
        assert(m2[j] == made[j]);
        assert(slots_after_loading(start, list, m2, j) == slots_after_loading(start, list, made, j));
    }
}

/// The chunk coordinate of a block coordinate names the chunk that holds the
/// block, counting chunks from zero toward each side: for `a >= 0` the chunk
/// spans `16 * c .. 16 * c + 16`, and for `a < 0` (rounding toward zero) it
/// spans `16 * c - 15 ..= 16 * c`.
pub proof fn lemma_chunk_coord_holds_block(a: int)
    ensures
        a >= 0 ==> 0 <= chunk_coord(a) && 16 * chunk_coord(a) <= a < 16 * chunk_coord(a) + 16,
        a < 0 ==> chunk_coord(a) <= 0 && 16 * chunk_coord(a) - 16 < a <= 16 * chunk_coord(a),
{
    if a >= 0 {
        assert(16 * (a / 16) <= a < 16 * (a / 16) + 16) by (nonlinear_arith)
            requires
                a >= 0,
        ;
    } else {
        let b = -a;
        assert(16 * (b / 16) <= b < 16 * (b / 16) + 16 && b / 16 >= 0) by (nonlinear_arith)
            requires
                b > 0,
        ;
    }
}

} // verus!
