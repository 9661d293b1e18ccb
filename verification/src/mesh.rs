use vstd::prelude::*;
use crate::chunk::{BlockType, Chunk, block_index, in_chunk, lemma_block_index, BLOCKS_PER_CHUNK};

verus! {

/// A corner of a block face.
///
/// Coordinates are counted in half blocks, so the corner lies at
/// `(x / 2, y / 2, z / 2)` in chunk-local space, where a chunk is centred on
/// the origin along `x` and `y` and starts at height 0. The block whose face
/// this is gives the corner its colour.
#[derive(Clone, Copy, PartialEq, Eq, Structural, Debug)]
pub struct Vertex {
    pub x: i32,
    pub y: i32,
    pub z: i32,
    pub block: BlockType,
}

/// Triangles ready for drawing: every four vertices form one quad, and every
/// six indices draw that quad as two triangles.
#[derive(Clone, Debug)]
pub struct Mesh {
    pub vertices: Vec<Vertex>,
    pub indices: Vec<u32>,
}

/// The six faces of a block, in the order in which a mesh lists them.
#[derive(Clone, Copy, PartialEq, Eq, Structural, Debug)]
pub enum Face {
    /// Towards `+y` (front).
    PosY,
    /// Towards `-y` (back).
    NegY,
    /// Towards `-x` (left).
    NegX,
    /// Towards `+x` (right).
    PosX,
    /// Towards `-z` (bottom).
    NegZ,
    /// Towards `+z` (top).
    PosZ,
}

impl Vertex {
    pub fn new(x: i32, y: i32, z: i32, block: BlockType) -> (v: Self)
        ensures
            v == (Vertex { x, y, z, block }),
    {
        Self { x, y, z, block }
    }
}

/// The neighbour that a face looks at, as an offset in whole blocks.
pub open spec fn face_direction(f: Face) -> (int, int, int) {
    match f {
        Face::PosY => (0, 1, 0),
        Face::NegY => (0, -1, 0),
        Face::NegX => (-1, 0, 0),
        Face::PosX => (1, 0, 0),
        Face::NegZ => (0, 0, -1),
        Face::PosZ => (0, 0, 1),
    }
}

/// Corner `c` (0 to 3) of face `f`, as an offset in half blocks from the
/// block's centre. The corners go round the face so that `0, 1, 2` and
/// `0, 2, 3` are its two triangles.
pub open spec fn face_corner(f: Face, c: int) -> (int, int, int) {
    match f {
        Face::PosY => if c == 0 { (-1, 1, -1) } else if c == 1 { (1, 1, -1) } else if c == 2 { (1, 1, 1) } else { (-1, 1, 1) },
        Face::NegY => if c == 0 { (-1, -1, 1) } else if c == 1 { (1, -1, 1) } else if c == 2 { (1, -1, -1) } else { (-1, -1, -1) },
        Face::NegX => if c == 0 { (-1, -1, 1) } else if c == 1 { (-1, 1, 1) } else if c == 2 { (-1, 1, -1) } else { (-1, -1, -1) },
        Face::PosX => if c == 0 { (1, -1, -1) } else if c == 1 { (1, 1, -1) } else if c == 2 { (1, 1, 1) } else { (1, -1, 1) },
        Face::NegZ => if c == 0 { (-1, -1, -1) } else if c == 1 { (1, -1, -1) } else if c == 2 { (1, 1, -1) } else { (-1, 1, -1) },
        Face::PosZ => if c == 0 { (-1, -1, 1) } else if c == 1 { (1, -1, 1) } else if c == 2 { (1, 1, 1) } else { (-1, 1, 1) },
    }
}

/// Corner `c` of face `f` of the block at `(x, y, z)`: the block's centre sits
/// at `(x - 8, y - 8, z)`.
pub open spec fn face_vertex(x: int, y: int, z: int, f: Face, c: int, b: BlockType) -> Vertex {
    Vertex {
        x: (2 * x - 16 + face_corner(f, c).0) as i32,
        y: (2 * y - 16 + face_corner(f, c).1) as i32,
        z: (2 * z + face_corner(f, c).2) as i32,
        block: b,
    }
}

/// The four corners of face `f` of the block at `(x, y, z)`.
pub open spec fn face_quad(x: int, y: int, z: int, f: Face, b: BlockType) -> Seq<Vertex> {
    seq![
        face_vertex(x, y, z, f, 0, b),
        face_vertex(x, y, z, f, 1, b),
        face_vertex(x, y, z, f, 2, b),
        face_vertex(x, y, z, f, 3, b),
    ]
}

/// Nothing hides a face that looks at `(x, y, z)`: the position is outside the
/// chunk, or holds air.
pub open spec fn is_open(blocks: Seq<BlockType>, x: int, y: int, z: int) -> bool {
    !in_chunk(x, y, z) || blocks[block_index(x, y, z)] == BlockType::BlockAir
}

/// Face `f` of the block at `(x, y, z)` can be seen.
pub open spec fn face_exposed(blocks: Seq<BlockType>, x: int, y: int, z: int, f: Face) -> bool {
    let d = face_direction(f);
    is_open(blocks, x + d.0, y + d.1, z + d.2)
}

/// The quad of face `f` where it can be seen, else nothing.
pub open spec fn exposed_quad(blocks: Seq<BlockType>, x: int, y: int, z: int, f: Face) -> Seq<Vertex> {
    if face_exposed(blocks, x, y, z, f) {
        face_quad(x, y, z, f, blocks[block_index(x, y, z)])
    } else {
        Seq::empty()
    }
}

/// The visible faces of the block at `(x, y, z)`, in the order of `Face`.
pub open spec fn block_faces(blocks: Seq<BlockType>, x: int, y: int, z: int) -> Seq<Vertex> {
    exposed_quad(blocks, x, y, z, Face::PosY) + exposed_quad(blocks, x, y, z, Face::NegY)
        + exposed_quad(blocks, x, y, z, Face::NegX) + exposed_quad(blocks, x, y, z, Face::PosX)
        + exposed_quad(blocks, x, y, z, Face::NegZ) + exposed_quad(blocks, x, y, z, Face::PosZ)
}

/// What the block at `(x, y, z)` adds to its chunk's mesh: air adds nothing.
pub open spec fn block_vertices(blocks: Seq<BlockType>, x: int, y: int, z: int) -> Seq<Vertex> {
    if blocks[block_index(x, y, z)] == BlockType::BlockAir {
        Seq::empty()
    } else {
        block_faces(blocks, x, y, z)
    }
}

/// The vertices of the blocks `(x, y, 0)` up to `(x, y, n - 1)`.
pub open spec fn column_vertices(blocks: Seq<BlockType>, x: int, y: int, n: int) -> Seq<Vertex>
    decreases n,
{
    if n <= 0 {
        Seq::empty()
    } else {
        column_vertices(blocks, x, y, n - 1) + block_vertices(blocks, x, y, n - 1)
    }
}

/// The vertices of the columns `(x, 0)` up to `(x, n - 1)`.
pub open spec fn row_vertices(blocks: Seq<BlockType>, x: int, n: int) -> Seq<Vertex>
    decreases n,
{
    if n <= 0 {
        Seq::empty()
    } else {
        row_vertices(blocks, x, n - 1) + column_vertices(blocks, x, n - 1, 256)
    }
}

/// The vertices of the rows `0` up to `n - 1`.
pub open spec fn slab_vertices(blocks: Seq<BlockType>, n: int) -> Seq<Vertex>
    decreases n,
{
    if n <= 0 {
        Seq::empty()
    } else {
        slab_vertices(blocks, n - 1) + row_vertices(blocks, n - 1, 16)
    }
}

/// The vertices of a chunk's mesh: the visible faces of its blocks, going
/// through `x`, then `y`, then `z`, the last one fastest.
pub open spec fn chunk_vertices(blocks: Seq<BlockType>) -> Seq<Vertex> {
    slab_vertices(blocks, 16)
}

/// A mesh under construction once the block at `(x, y, z)` has been passed:
/// air leaves it as it is, other blocks append their visible faces.
pub open spec fn append_block(
    blocks: Seq<BlockType>,
    x: int,
    y: int,
    z: int,
    m: (Seq<Vertex>, Seq<u32>),
) -> (Seq<Vertex>, Seq<u32>) {
    if blocks[block_index(x, y, z)] == BlockType::BlockAir {
        m
    } else {
        faces_appended(blocks, x, y, z, m.0, m.1)
    }
}

/// `m` once the blocks `(x, y, 0)` up to `(x, y, n - 1)` have been passed.
pub open spec fn append_column(
    blocks: Seq<BlockType>,
    x: int,
    y: int,
    n: int,
    m: (Seq<Vertex>, Seq<u32>),
) -> (Seq<Vertex>, Seq<u32>)
    decreases n,
{
    if n <= 0 {
        m
    } else {
        append_block(blocks, x, y, n - 1, append_column(blocks, x, y, n - 1, m))
    }
}

/// `m` once the columns `(x, 0)` up to `(x, n - 1)` have been passed.
pub open spec fn append_row(blocks: Seq<BlockType>, x: int, n: int, m: (Seq<Vertex>, Seq<u32>)) -> (
    Seq<Vertex>,
    Seq<u32>,
)
    decreases n,
{
    if n <= 0 {
        m
    } else {
        append_column(blocks, x, n - 1, 256, append_row(blocks, x, n - 1, m))
    }
}

/// `m` once the rows `0` up to `n - 1` have been passed.
pub open spec fn append_slab(blocks: Seq<BlockType>, n: int, m: (Seq<Vertex>, Seq<u32>)) -> (
    Seq<Vertex>,
    Seq<u32>,
)
    decreases n,
{
    if n <= 0 {
        m
    } else {
        append_row(blocks, n - 1, 16, append_slab(blocks, n - 1, m))
    }
}

/// The mesh that appending the visible faces of every block that is not air
/// builds from an empty mesh, going through `x`, then `y`, then `z`, the last
/// one fastest.
pub open spec fn mesh_by_appending(blocks: Seq<BlockType>) -> (Seq<Vertex>, Seq<u32>) {
    append_slab(blocks, 16, (Seq::empty(), Seq::empty()))
}

/// Position `k` (0 to 5) of the two triangles `0, 1, 2` and `0, 2, 3` of a quad.
pub open spec fn quad_corner_order(k: int) -> int {
    if k == 0 { 0 } else if k == 1 { 1 } else if k == 2 { 2 } else if k == 3 { 0 } else if k == 4 { 2 } else { 3 }
}

/// The indices that draw `n` quads, stored four vertices each, one after the
/// other.
pub open spec fn quad_indices(n: nat) -> Seq<u32> {
    Seq::new((6 * n) as nat, |i: int| (4 * (i / 6) + quad_corner_order(i % 6)) as u32)
}

/// The indices that draw `n` quads stored four vertices each, one after the
/// other, from vertex `o` on: for the `j`-th quad, `o + 4j` followed by the
/// corners `0, 1, 2, 0, 2, 3` of that quad.
pub open spec fn quad_index_groups(o: int, n: nat) -> Seq<u32> {
    Seq::new((6 * n) as nat, |i: int| (o + 4 * (i / 6) + quad_corner_order(i % 6)) as u32)
}

/// What appending the visible faces of the block at `(x, y, z)` makes of the
/// vertices `v` and indices `i` of a mesh: the faces follow `v`, and the
/// indices of their triangles, counted from `v.len()` on, follow `i`.
pub open spec fn faces_appended(
    blocks: Seq<BlockType>,
    x: int,
    y: int,
    z: int,
    v: Seq<Vertex>,
    i: Seq<u32>,
) -> (Seq<Vertex>, Seq<u32>) {
    let f = block_faces(blocks, x, y, z);
    (v + f, i + quad_index_groups(v.len() as int, f.len() / 4))
}

proof fn lemma_div6_shift(n: int, j: int)
    by (nonlinear_arith)
    requires
        0 <= n,
        0 <= j,
    ensures
        (6 * n + j) / 6 == n + j / 6,
        (6 * n + j) % 6 == j % 6,
{
}

proof fn lemma_groups_concat(o: int, a: nat, b: nat)
    ensures
        quad_index_groups(o, a) + quad_index_groups(o + 4 * a, b) =~= quad_index_groups(o, a + b),
{
    let l = quad_index_groups(o, a);
    let r = quad_index_groups(o + 4 * a, b);
    let t = quad_index_groups(o, a + b);
    assert forall|i: int| 6 * a <= i < 6 * (a + b) implies (l + r)[i] == t[i] by {
        lemma_div6_shift(a as int, i - 6 * a);
        assert(6 * a + (i - 6 * a) == i);
    }
    assert((6 * (a + b)) as nat == 6 * a + 6 * b) by (nonlinear_arith);
}

/// Appending `b` more quads' indices after `a` quads gives the indices of
/// `a + b` quads.
proof fn lemma_append_groups(i0: Seq<u32>, o: int, a: nat, b: nat)
    ensures
        i0 + quad_index_groups(o, a) + quad_index_groups(o + 4 * a, b) =~= i0 + quad_index_groups(o, a + b),
{
    lemma_groups_concat(o, a, b);
}

proof fn lemma_quad_indices_extend(n: nat, m: nat)
    ensures
        quad_indices(n) + quad_index_groups(4 * n as int, m) =~= quad_indices(n + m),
{
    assert(quad_indices(n) =~= quad_index_groups(0, n));
    assert(quad_indices(n + m) =~= quad_index_groups(0, n + m));
    lemma_groups_concat(0, n, m);
}

proof fn lemma_div6(n: int, k: int)
    by (nonlinear_arith)
    requires
        0 <= n,
        0 <= k < 6,
    ensures
        (6 * n + k) / 6 == n,
        (6 * n + k) % 6 == k,
{
}

/// Every index of `quad_indices(n)` names one of the first `4 * n` vertices.
pub proof fn lemma_quad_indices_in_range(n: nat)
    requires
        0 <= n,
        4 * n <= u32::MAX,
    ensures
        forall|i: int| 0 <= i < quad_indices(n).len() ==> #[trigger] quad_indices(n)[i] < 4 * n,
{
    assert forall|i: int| 0 <= i < quad_indices(n).len() implies #[trigger] quad_indices(n)[i] < 4 * n by {
        assert(0 <= i / 6 < n && 0 <= i % 6 < 6) by (nonlinear_arith)
            requires
                0 <= i < 6 * n,
        ;
    }
}

/// The corner offsets of `face_corner`, in half blocks.
fn corner_offset(f: Face, c: usize) -> (r: (i32, i32, i32))
    requires
        c < 4,
    ensures
        r.0 == face_corner(f, c as int).0,
        r.1 == face_corner(f, c as int).1,
        r.2 == face_corner(f, c as int).2,
{
    match f {
        Face::PosY => if c == 0 { (-1, 1, -1) } else if c == 1 { (1, 1, -1) } else if c == 2 { (1, 1, 1) } else { (-1, 1, 1) },
        Face::NegY => if c == 0 { (-1, -1, 1) } else if c == 1 { (1, -1, 1) } else if c == 2 { (1, -1, -1) } else { (-1, -1, -1) },
        Face::NegX => if c == 0 { (-1, -1, 1) } else if c == 1 { (-1, 1, 1) } else if c == 2 { (-1, 1, -1) } else { (-1, -1, -1) },
        Face::PosX => if c == 0 { (1, -1, -1) } else if c == 1 { (1, 1, -1) } else if c == 2 { (1, 1, 1) } else { (1, -1, 1) },
        Face::NegZ => if c == 0 { (-1, -1, -1) } else if c == 1 { (1, -1, -1) } else if c == 2 { (1, 1, -1) } else { (-1, 1, -1) },
        Face::PosZ => if c == 0 { (-1, -1, 1) } else if c == 1 { (1, -1, 1) } else if c == 2 { (1, 1, 1) } else { (-1, 1, 1) },
    }
}

/// Appends the quad of face `f` of the block at `(x, y, z)`, and the indices of
/// its two triangles.
fn push_quad(
    vertices: &mut Vec<Vertex>,
    indices: &mut Vec<u32>,
    x: usize,
    y: usize,
    z: usize,
    f: Face,
    block: BlockType,
)
    requires
        in_chunk(x as int, y as int, z as int),
        old(vertices)@.len() + 4 <= u32::MAX,
    ensures
        final(vertices)@ == old(vertices)@ + face_quad(x as int, y as int, z as int, f, block),
        final(indices)@ == old(indices)@ + quad_index_groups(old(vertices)@.len() as int, 1),
{
    let ghost start = indices@;
    let offset: u32 = vertices.len() as u32;
    let bx: i32 = 2 * (x as i32) - 16;
    let by: i32 = 2 * (y as i32) - 16;
    let bz: i32 = 2 * (z as i32);
    let mut c: usize = 0;
    while c < 4
        invariant
            c <= 4,
            in_chunk(x as int, y as int, z as int),
            bx == 2 * x - 16,
            by == 2 * y - 16,
            bz == 2 * z,
            vertices@ == old(vertices)@ + face_quad(x as int, y as int, z as int, f, block).take(c as int),
        decreases 4 - c,
    {
        let d = corner_offset(f, c);
        vertices.push(Vertex::new(bx + d.0, by + d.1, bz + d.2, block));
        proof {
            assert(face_quad(x as int, y as int, z as int, f, block).take(c as int + 1)
                =~= face_quad(x as int, y as int, z as int, f, block).take(c as int).push(
                face_vertex(x as int, y as int, z as int, f, c as int, block)));
        }
        c = c + 1;
    }
    assert(face_quad(x as int, y as int, z as int, f, block).take(4)
        =~= face_quad(x as int, y as int, z as int, f, block));
    indices.push(offset);
    indices.push(offset + 1);
    indices.push(offset + 2);
    indices.push(offset);
    indices.push(offset + 2);
    indices.push(offset + 3);
    proof {
        lemma_div6(0, 0);
        lemma_div6(0, 1);
        lemma_div6(0, 2);
        lemma_div6(0, 3);
        lemma_div6(0, 4);
        lemma_div6(0, 5);
        assert(indices@ =~= start + quad_index_groups(offset as int, 1));
    }
}

impl Chunk {
    /// Nothing hides a face that looks at `(bx, by, bz)`.
    fn is_air(&self, bx: i32, by: i32, bz: i32) -> (r: bool)
        ensures
            r == is_open(self.blocks@, bx as int, by as int, bz as int),
    {
        if bx < 0 || bx >= 16 || by < 0 || by >= 16 || bz < 0 || bz >= 256 {
            return true;
        }
        proof {
            lemma_block_index(bx as int, by as int, bz as int);
        }
        match self.blocks[Self::index(bx as usize, by as usize, bz as usize)] {
            BlockType::BlockAir => true,
            _ => false,
        }
    }

    /// Appends face `f` of the block at `(x, y, z)` where nothing hides it.
    fn add_face(
        &self,
        x: usize,
        y: usize,
        z: usize,
        f: Face,
        vertices: &mut Vec<Vertex>,
        indices: &mut Vec<u32>,
    )
        requires
            in_chunk(x as int, y as int, z as int),
            old(vertices)@.len() + 4 <= u32::MAX,
        ensures
            final(vertices)@ == old(vertices)@ + exposed_quad(self.blocks@, x as int, y as int, z as int, f),
            final(indices)@ == old(indices)@ + quad_index_groups(
                old(vertices)@.len() as int,
                exposed_quad(self.blocks@, x as int, y as int, z as int, f).len() / 4,
            ),
    {
        proof {
            lemma_block_index(x as int, y as int, z as int);
        }
        let d = face_step(f);
        if self.is_air(x as i32 + d.0, y as i32 + d.1, z as i32 + d.2) {
            let face_block = self.blocks[Self::index(x, y, z)];
            push_quad(vertices, indices, x, y, z, f, face_block);
        } else {
            assert(indices@ =~= old(indices)@ + quad_index_groups(old(vertices)@.len() as int, 0));
        }
    }

    /// Appends the visible faces of the block at `(x, y, z)` to a mesh under
    /// construction: the faces follow the vertices, and the indices of their
    /// triangles follow the indices (`faces_appended`).
    #[verifier::rlimit(60)]
    fn add_block_faces(
        &self,
        x: usize,
        y: usize,
        z: usize,
        vertices: &mut Vec<Vertex>,
        indices: &mut Vec<u32>,
    )
        requires
            in_chunk(x as int, y as int, z as int),
            old(vertices)@.len() + 24 <= u32::MAX,
        ensures
            (final(vertices)@, final(indices)@) == faces_appended(
                self.blocks@,
                x as int,
                y as int,
                z as int,
                old(vertices)@,
                old(indices)@,
            ),
            final(vertices)@.len() <= old(vertices)@.len() + 24,
            (final(vertices)@.len() - old(vertices)@.len()) % 4 == 0,
    {
        let ghost blocks = self.blocks@;
        let ghost (xs, ys, zs) = (x as int, y as int, z as int);
        let ghost v0 = vertices@;
        let ghost i0 = indices@;
        let ghost o0 = v0.len() as int;
        let ghost mut count: nat = 0;
        let ghost mut faces: Seq<Vertex> = Seq::empty();
        proof {
            assert(i0 + quad_index_groups(o0, 0) =~= i0);
            assert(v0 + faces =~= v0);
        }
        let ghost vb = vertices@;
        let ghost ib = indices@;
        self.add_face(x, y, z, Face::PosY, vertices, indices);
        proof {
            let e = exposed_quad(blocks, xs, ys, zs, Face::PosY);
            lemma_exposed_quad_len(blocks, xs, ys, zs, Face::PosY);
            lemma_face_step(v0, i0, count, faces, vb, ib, vertices@, indices@, e);
            count = count + e.len() / 4;
            faces = faces + e;
        }
        let ghost vb = vertices@;
        let ghost ib = indices@;
        self.add_face(x, y, z, Face::NegY, vertices, indices);
        proof {
            let e = exposed_quad(blocks, xs, ys, zs, Face::NegY);
            lemma_exposed_quad_len(blocks, xs, ys, zs, Face::NegY);
            lemma_face_step(v0, i0, count, faces, vb, ib, vertices@, indices@, e);
            count = count + e.len() / 4;
            faces = faces + e;
        }
        let ghost vb = vertices@;
        let ghost ib = indices@;
        self.add_face(x, y, z, Face::NegX, vertices, indices);
        proof {
            let e = exposed_quad(blocks, xs, ys, zs, Face::NegX);
            lemma_exposed_quad_len(blocks, xs, ys, zs, Face::NegX);
            lemma_face_step(v0, i0, count, faces, vb, ib, vertices@, indices@, e);
            count = count + e.len() / 4;
            faces = faces + e;
        }
        let ghost vb = vertices@;
        let ghost ib = indices@;
        self.add_face(x, y, z, Face::PosX, vertices, indices);
        proof {
            let e = exposed_quad(blocks, xs, ys, zs, Face::PosX);
            lemma_exposed_quad_len(blocks, xs, ys, zs, Face::PosX);
            lemma_face_step(v0, i0, count, faces, vb, ib, vertices@, indices@, e);
            count = count + e.len() / 4;
            faces = faces + e;
        }
        let ghost vb = vertices@;
        let ghost ib = indices@;
        self.add_face(x, y, z, Face::NegZ, vertices, indices);
        proof {
            let e = exposed_quad(blocks, xs, ys, zs, Face::NegZ);
            lemma_exposed_quad_len(blocks, xs, ys, zs, Face::NegZ);
            lemma_face_step(v0, i0, count, faces, vb, ib, vertices@, indices@, e);
            count = count + e.len() / 4;
            faces = faces + e;
        }
        let ghost vb = vertices@;
        let ghost ib = indices@;
        self.add_face(x, y, z, Face::PosZ, vertices, indices);
        proof {
            let e = exposed_quad(blocks, xs, ys, zs, Face::PosZ);
            lemma_exposed_quad_len(blocks, xs, ys, zs, Face::PosZ);
            lemma_face_step(v0, i0, count, faces, vb, ib, vertices@, indices@, e);
            count = count + e.len() / 4;
            faces = faces + e;
        }
        proof {
            assert(faces =~= block_faces(blocks, xs, ys, zs));
        }
    }
}

/// A face adds four corners or none.
proof fn lemma_exposed_quad_len(blocks: Seq<BlockType>, x: int, y: int, z: int, f: Face)
    ensures
        exposed_quad(blocks, x, y, z, f).len() == 0 || exposed_quad(blocks, x, y, z, f).len() == 4,
{
}

/// Appending one face keeps the mesh under construction in the shape
/// `faces_appended` gives it.
proof fn lemma_face_step(
    v0: Seq<Vertex>,
    i0: Seq<u32>,
    count: nat,
    faces: Seq<Vertex>,
    vb: Seq<Vertex>,
    ib: Seq<u32>,
    va: Seq<Vertex>,
    ia: Seq<u32>,
    e: Seq<Vertex>,
)
    requires
        vb == v0 + faces,
        ib == i0 + quad_index_groups(v0.len() as int, count),
        faces.len() == 4 * count,
        e.len() == 0 || e.len() == 4,
        va == vb + e,
        ia == ib + quad_index_groups(vb.len() as int, e.len() / 4),
    ensures
        va == v0 + (faces + e),
        ia == i0 + quad_index_groups(v0.len() as int, count + e.len() / 4),
        (faces + e).len() == 4 * (count + e.len() / 4),
{
    lemma_append_groups(i0, v0.len() as int, count, e.len() / 4);
    assert(va =~= v0 + (faces + e));
}

/// The neighbour that face `f` looks at, as an offset in whole blocks.
fn face_step(f: Face) -> (r: (i32, i32, i32))
    ensures
        r.0 == face_direction(f).0,
        r.1 == face_direction(f).1,
        r.2 == face_direction(f).2,
{
    match f {
        Face::PosY => (0, 1, 0),
        Face::NegY => (0, -1, 0),
        Face::NegX => (-1, 0, 0),
        Face::PosX => (1, 0, 0),
        Face::NegZ => (0, 0, -1),
        Face::PosZ => (0, 0, 1),
    }
}

impl Chunk {
    /// The mesh of the chunk's visible block faces.
    ///
    /// Air adds nothing; every other block adds one quad for each of its faces
    /// whose neighbour is air or lies outside the chunk. The indices draw each
    /// quad as two triangles, and each of them names a vertex of the mesh.
    pub fn generate_mesh(&self) -> (mesh: Mesh)
        ensures
            mesh.vertices@ == chunk_vertices(self.blocks@),
            (mesh.vertices@, mesh.indices@) == mesh_by_appending(self.blocks@),
            mesh.vertices@.len() % 4 == 0,
            mesh.indices@ == quad_indices(mesh.vertices@.len() / 4),
            mesh.indices@.len() == 6 * (mesh.vertices@.len() / 4),
            forall|i: int| 0 <= i < mesh.indices@.len() ==> #[trigger] mesh.indices@[i] < mesh.vertices@.len(),
    {
        let ghost blocks = self.blocks@;
        let mut vertices: Vec<Vertex> = Vec::new();
        let mut indices: Vec<u32> = Vec::new();
        let ghost empty = (Seq::<Vertex>::empty(), Seq::<u32>::empty());
        assert((vertices@, indices@) == empty);
        let mut x: usize = 0;
        while x < 16
            invariant
                x <= 16,
                blocks == self.blocks@,
                vertices@ == slab_vertices(blocks, x as int),
                (vertices@, indices@) == append_slab(blocks, x as int, empty),
                vertices@.len() <= 98304 * x,
                vertices@.len() % 4 == 0,
                indices@ == quad_indices(vertices@.len() / 4),
            decreases 16 - x,
        {
            let mut y: usize = 0;
            while y < 16
                invariant
                    x < 16,
                    y <= 16,
                    blocks == self.blocks@,
                    vertices@ == slab_vertices(blocks, x as int) + row_vertices(blocks, x as int, y as int),
                    (vertices@, indices@) == append_row(blocks, x as int, y as int, append_slab(blocks, x as int, empty)),
                    vertices@.len() <= 98304 * x + 6144 * y,
                    vertices@.len() % 4 == 0,
                    indices@ == quad_indices(vertices@.len() / 4),
                decreases 16 - y,
            {
                let mut z: usize = 0;
                while z < 256
                    invariant
                        x < 16,
                        y < 16,
                        z <= 256,
                        blocks == self.blocks@,
                        vertices@ == slab_vertices(blocks, x as int) + row_vertices(blocks, x as int, y as int)
                            + column_vertices(blocks, x as int, y as int, z as int),
                        (vertices@, indices@) == append_column(
                            blocks,
                            x as int,
                            y as int,
                            z as int,
                            append_row(blocks, x as int, y as int, append_slab(blocks, x as int, empty)),
                        ),
                        vertices@.len() <= 98304 * x + 6144 * y + 24 * z,
                        vertices@.len() % 4 == 0,
                        indices@ == quad_indices(vertices@.len() / 4),
                    decreases 256 - z,
                {
                    proof {
                        lemma_block_index(x as int, y as int, z as int);
                    }
                    let ghost before = vertices@;
                    let ghost before_indices = indices@;
                    let block = self.blocks[Self::index(x, y, z)];
                    if block != BlockType::BlockAir {
                        self.add_block_faces(x, y, z, &mut vertices, &mut indices);
                        proof {
                            let n = (before.len() / 4) as nat;
                            let m = ((vertices@.len() - before.len()) / 4) as nat;
                            lemma_quad_indices_extend(n, m);
                            assert(4 * n == before.len());
                            assert(vertices@.len() / 4 == n + m);
                        }
                    }
                    proof {
                        let head = slab_vertices(blocks, x as int) + row_vertices(blocks, x as int, y as int);
                        let col = column_vertices(blocks, x as int, y as int, z as int);
                        let bv = block_vertices(blocks, x as int, y as int, z as int);
                        assert(vertices@ == before + bv);
                        assert(head + col + bv =~= head + (col + bv));
                    }
                    z = z + 1;
                }
                proof {
                    let s = slab_vertices(blocks, x as int);
                    let r = row_vertices(blocks, x as int, y as int);
                    let c = column_vertices(blocks, x as int, y as int, 256);
                    assert(s + r + c =~= s + (r + c));
                }
                y = y + 1;
            }
            x = x + 1;
        }
        proof {
            lemma_quad_indices_in_range(vertices@.len() / 4);
        }
        Mesh { vertices, indices }
    }
}

proof fn lemma_air_column(blocks: Seq<BlockType>, x: int, y: int, n: int)
    requires
        0 <= x < 16,
        0 <= y < 16,
        n <= 256,
        forall|i: int| 0 <= i < BLOCKS_PER_CHUNK ==> blocks[i] == BlockType::BlockAir,
    ensures
        column_vertices(blocks, x, y, n) == Seq::<Vertex>::empty(),
    decreases n,
{
    if n > 0 {
        lemma_block_index(x, y, n - 1);
        lemma_air_column(blocks, x, y, n - 1);
        assert(column_vertices(blocks, x, y, n) =~= Seq::<Vertex>::empty());
    }
}

proof fn lemma_air_row(blocks: Seq<BlockType>, x: int, n: int)
    requires
        0 <= x < 16,
        n <= 16,
        forall|i: int| 0 <= i < BLOCKS_PER_CHUNK ==> blocks[i] == BlockType::BlockAir,
    ensures
        row_vertices(blocks, x, n) == Seq::<Vertex>::empty(),
    decreases n,
{
    if n > 0 {
        lemma_air_column(blocks, x, n - 1, 256);
        lemma_air_row(blocks, x, n - 1);
        assert(row_vertices(blocks, x, n) =~= Seq::<Vertex>::empty());
    }
}

proof fn lemma_air_slab(blocks: Seq<BlockType>, n: int)
    requires
        n <= 16,
        forall|i: int| 0 <= i < BLOCKS_PER_CHUNK ==> blocks[i] == BlockType::BlockAir,
    ensures
        slab_vertices(blocks, n) == Seq::<Vertex>::empty(),
    decreases n,
{
    if n > 0 {
        lemma_air_row(blocks, n - 1, 16);
        lemma_air_slab(blocks, n - 1);
        assert(slab_vertices(blocks, n) =~= Seq::<Vertex>::empty());
    }
}

/// A chunk made of air only has an empty mesh.
pub proof fn lemma_air_chunk_has_no_faces(blocks: Seq<BlockType>)
    requires
        forall|i: int| 0 <= i < BLOCKS_PER_CHUNK ==> blocks[i] == BlockType::BlockAir,
    ensures
        chunk_vertices(blocks) == Seq::<Vertex>::empty(),
        quad_indices(chunk_vertices(blocks).len() / 4) == Seq::<u32>::empty(),
{
    lemma_air_slab(blocks, 16);
    assert(quad_indices(0) =~= Seq::<u32>::empty());
}

/// `d` is one step along one axis: one component is 1 or -1, the others 0.
pub open spec fn is_unit_step(d: (int, int, int)) -> bool {
    ||| (d.0 == 1 || d.0 == -1) && d.1 == 0 && d.2 == 0
    ||| d.0 == 0 && (d.1 == 1 || d.1 == -1) && d.2 == 0
    ||| d.0 == 0 && d.1 == 0 && (d.2 == 1 || d.2 == -1)
}

/// The corner offset `k` lies on the side of the block that the step `d`
/// leads to: along the axis of `d` it is half a block out in the direction of
/// `d`.
pub open spec fn on_side(k: (int, int, int), d: (int, int, int)) -> bool {
    &&& d.0 != 0 ==> k.0 == d.0
    &&& d.1 != 0 ==> k.1 == d.1
    &&& d.2 != 0 ==> k.2 == d.2
}

/// The corner offset `k` is a corner of the block: half a block out on each
/// axis.
pub open spec fn is_block_corner(k: (int, int, int)) -> bool {
    &&& (k.0 == 1 || k.0 == -1)
    &&& (k.1 == 1 || k.1 == -1)
    &&& (k.2 == 1 || k.2 == -1)
}

/// Corner offsets `a` and `b` are neighbouring corners of a block: they differ
/// on exactly one axis.
pub open spec fn along_one_edge(a: (int, int, int), b: (int, int, int)) -> bool {
    ||| a.0 != b.0 && a.1 == b.1 && a.2 == b.2
    ||| a.0 == b.0 && a.1 != b.1 && a.2 == b.2
    ||| a.0 == b.0 && a.1 == b.1 && a.2 != b.2
}

/// The six faces look toward the six neighbours of a block, each toward a
/// different one, and the four corners of each face are four different
/// corners of the block, all on the side that the face looks toward. The
/// corners go round the face, each next to the one before it, so that the
/// triangles `0, 1, 2` and `0, 2, 3` cover the face.
pub proof fn lemma_face_geometry()
    ensures
        forall|f: Face| is_unit_step(#[trigger] face_direction(f)),
        forall|f1: Face, f2: Face| f1 != f2 ==> #[trigger] face_direction(f1) != #[trigger] face_direction(f2),
        forall|f: Face, c: int|
            0 <= c < 4 ==> is_block_corner(#[trigger] face_corner(f, c)) && on_side(face_corner(f, c), face_direction(f)),
        forall|f: Face, c1: int, c2: int|
            0 <= c1 < c2 < 4 ==> #[trigger] face_corner(f, c1) != #[trigger] face_corner(f, c2),
        forall|f: Face, c: int|
            0 <= c < 4 ==> along_one_edge(#[trigger] face_corner(f, c), face_corner(f, (c + 1) % 4)),
{
    assert forall|f: Face, c: int| 0 <= c < 4 implies along_one_edge(
        #[trigger] face_corner(f, c),
        face_corner(f, (c + 1) % 4),
    ) by {
        match f {
            Face::PosY => {},
            Face::NegY => {},
            Face::NegX => {},
            Face::PosX => {},
            Face::NegZ => {},
            Face::PosZ => {},
        }
    }
    assert forall|f: Face, c: int| 0 <= c < 4 implies is_block_corner(#[trigger] face_corner(f, c)) && on_side(
        face_corner(f, c),
        face_direction(f),
    ) by {
        match f {
            Face::PosY => {},
            Face::NegY => {},
            Face::NegX => {},
            Face::PosX => {},
            Face::NegZ => {},
            Face::PosZ => {},
        }
    }
    assert forall|f1: Face, f2: Face| f1 != f2 implies #[trigger] face_direction(f1) != #[trigger] face_direction(f2) by {
        match f1 {
            Face::PosY => {},
            Face::NegY => {},
            Face::NegX => {},
            Face::PosX => {},
            Face::NegZ => {},
            Face::PosZ => {},
        }
    }
    assert forall|f: Face, c1: int, c2: int| 0 <= c1 < c2 < 4 implies #[trigger] face_corner(f, c1)
        != #[trigger] face_corner(f, c2) by {
        match f {
            Face::PosY => {},
            Face::NegY => {},
            Face::NegX => {},
            Face::PosX => {},
            Face::NegZ => {},
            Face::PosZ => {},
        }
    }
}

/// A face of a block is drawn exactly when the neighbour it looks toward is
/// open (air, or outside the chunk). Its four corners then lie on the side of
/// the block toward that neighbour, at the block's own corners, in the
/// block's colour.
pub proof fn lemma_face_drawn_toward_open_neighbour(blocks: Seq<BlockType>, x: int, y: int, z: int, f: Face)
    requires
        in_chunk(x, y, z),
    ensures
        ({
            let d = face_direction(f);
            let q = exposed_quad(blocks, x, y, z, f);
            &&& q.len() == if is_open(blocks, x + d.0, y + d.1, z + d.2) { 4int } else { 0int }
            &&& forall|c: int|
                0 <= c < q.len() ==> {
                    let v = #[trigger] q[c];
                    &&& on_side((v.x - (2 * x - 16), v.y - (2 * y - 16), v.z - 2 * z), d)
                    &&& is_block_corner((v.x - (2 * x - 16), v.y - (2 * y - 16), v.z - 2 * z))
                    &&& v.block == blocks[block_index(x, y, z)]
                }
        }),
{
    lemma_face_geometry();
    let q = exposed_quad(blocks, x, y, z, f);
    assert forall|c: int| 0 <= c < q.len() implies {
        let v = #[trigger] q[c];
        &&& on_side((v.x - (2 * x - 16), v.y - (2 * y - 16), v.z - 2 * z), face_direction(f))
        &&& is_block_corner((v.x - (2 * x - 16), v.y - (2 * y - 16), v.z - 2 * z))
        &&& v.block == blocks[block_index(x, y, z)]
    } by {
        let k = face_corner(f, c);
        assert(is_block_corner(k) && on_side(k, face_direction(f)));
        assert(q[c] == face_vertex(x, y, z, f, c, blocks[block_index(x, y, z)]));
    }
}

} // verus!
