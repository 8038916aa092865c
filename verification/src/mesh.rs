//! Triangle meshes. Numbers are held as the bit patterns of single-precision floating point.
use crate::number::ONE;
use crate::texture::FloatMath;
use vstd::prelude::*;

verus! {

/// Two numbers.
#[derive(Clone, Copy, Debug, PartialEq, Eq, Structural)]
pub struct Float2 {
    pub x: u32,
    pub y: u32,
}

/// Three numbers.
#[derive(Clone, Copy, Debug, PartialEq, Eq, Structural)]
pub struct Float3 {
    pub x: u32,
    pub y: u32,
    pub z: u32,
}

/// Four numbers.
#[derive(Clone, Copy, Debug, PartialEq, Eq, Structural)]
pub struct Float4 {
    pub x: u32,
    pub y: u32,
    pub z: u32,
    pub w: u32,
}

/// A corner of a mesh.
#[derive(Clone, Copy, Debug, PartialEq, Eq, Structural)]
pub struct Vertex {
    pub position: Float3,
    pub normal: Float3,
    pub tangent: Float4,
    pub tex_coord: Float2,
    pub color: Float3,
}

/// Vertices, and triangles as triples of vertex numbers.
#[derive(Debug)]
pub struct Mesh {
    pub vertices: Vec<Vertex>,
    pub indices: Vec<u32>,
}

/// How the indices of a primitive make a surface.
#[derive(Clone, Copy, Debug, PartialEq, Eq, Structural)]
pub enum PrimitiveMode {
    Points,
    Lines,
    LineLoop,
    LineStrip,
    Triangles,
    TriangleStrip,
    TriangleFan,
}

/// The attributes of a primitive as they stand in a file; an empty list where one is missing.
#[derive(Debug)]
pub struct RawPrimitive {
    pub mode: PrimitiveMode,
    pub positions: Option<Vec<Float3>>,
    pub normals: Vec<Float3>,
    pub tangents: Vec<Float4>,
    pub tex_coords: Vec<Float2>,
    pub colors: Vec<Float3>,
    pub indices: Option<Vec<u32>>,
}

/// The contents of a primitive.
pub struct PrimitiveModel {
    pub mode: PrimitiveMode,
    pub positions: Option<Seq<Float3>>,
    pub normals: Seq<Float3>,
    pub tangents: Seq<Float4>,
    pub tex_coords: Seq<Float2>,
    pub colors: Seq<Float3>,
    pub indices: Option<Seq<u32>>,
}

/// The items of a list that may be missing.
pub open spec fn items<A>(list: Option<Vec<A>>) -> Option<Seq<A>> {
    match list {
        Some(v) => Some(v@),
        None => None,
    }
}

impl View for RawPrimitive {
    type V = PrimitiveModel;

    open spec fn view(&self) -> PrimitiveModel {
        PrimitiveModel {
            mode: self.mode,
            positions: items(self.positions),
            normals: self.normals@,
            tangents: self.tangents@,
            tex_coords: self.tex_coords@,
            colors: self.colors@,
            indices: items(self.indices),
        }
    }
}

/// Why a primitive is no mesh.
#[derive(Clone, Copy, Debug, PartialEq, Eq, Structural)]
pub enum MeshError {
    /// It has no positions.
    MissingPositions,
    /// Its indices do not make triangles.
    UnsupportedMode,
}

/// The triangles of a strip: three neighbours each, every other one turned round.
pub open spec fn strip_triangles(s: Seq<u32>, n: nat) -> Seq<u32>
    decreases n,
{
    if n == 0 {
        seq![]
    } else {
        let i = n as int - 1;
        strip_triangles(s, (n - 1) as nat) + (if i % 2 == 0 {
            seq![s[i], s[i + 1], s[i + 2]]
        } else {
            seq![s[i + 1], s[i], s[i + 2]]
        })
    }
}

/// The triangles of a fan: the first corner with two neighbours each.
pub open spec fn fan_triangles(s: Seq<u32>, n: nat) -> Seq<u32>
    decreases n,
{
    if n == 0 {
        seq![]
    } else {
        fan_triangles(s, (n - 1) as nat) + seq![s[0], s[n as int], s[n as int + 1]]
    }
}

/// Number of triangles in a strip or fan of `len` corners.
pub open spec fn triangle_count(len: nat) -> nat {
    if len >= 2 {
        (len - 2) as nat
    } else {
        0
    }
}

/// Triangles of a strip.
pub fn strip_to_triangles(indices: &Vec<u32>) -> (out: Vec<u32>)
    ensures
        out@ == strip_triangles(indices@, triangle_count(indices@.len())),
{
    let mut out: Vec<u32> = Vec::new();
    let count: usize = if indices.len() >= 2 {
        indices.len() - 2
    } else {
        0
    };
    let mut i: usize = 0;
    while i < count
        invariant
            count == triangle_count(indices@.len()),
            indices@.len() <= usize::MAX,
            i <= count,
            out@ == strip_triangles(indices@, i as nat),
        decreases count - i,
    {
        if i % 2 == 0 {
            out.push(indices[i]);
            out.push(indices[i + 1]);
            out.push(indices[i + 2]);
        } else {
            out.push(indices[i + 1]);
            out.push(indices[i]);
            out.push(indices[i + 2]);
        }
        proof {
            assert(out@ =~= strip_triangles(indices@, (i + 1) as nat));
        }
        i += 1;
    }
    out
}

/// Triangles of a fan.
pub fn fan_to_triangles(indices: &Vec<u32>) -> (out: Vec<u32>)
    ensures
        out@ == fan_triangles(indices@, triangle_count(indices@.len())),
{
    let mut out: Vec<u32> = Vec::new();
    let count: usize = if indices.len() >= 2 {
        indices.len() - 2
    } else {
        0
    };
    let mut i: usize = 0;
    while i < count
        invariant
            count == triangle_count(indices@.len()),
            indices@.len() <= usize::MAX,
            i <= count,
            out@ == fan_triangles(indices@, i as nat),
        decreases count - i,
    {
        out.push(indices[0]);
        out.push(indices[i + 1]);
        out.push(indices[i + 2]);
        proof {
            assert(out@ =~= fan_triangles(indices@, (i + 1) as nat));
        }
        i += 1;
    }
    out
}

/// Strips and fans have three indices for each triangle, all of them out of the strip or fan.
pub proof fn triangles_use_given_corners(s: Seq<u32>, n: nat)
    requires
        n <= triangle_count(s.len()),
    ensures
        strip_triangles(s, n).len() == 3 * n,
        fan_triangles(s, n).len() == 3 * n,
        forall|i: int|
            0 <= i < 3 * n ==> s.contains(#[trigger] strip_triangles(s, n)[i]),
        forall|i: int| 0 <= i < 3 * n ==> s.contains(#[trigger] fan_triangles(s, n)[i]),
    decreases n,
{
    if n > 0 {
        triangles_use_given_corners(s, (n - 1) as nat);
        let a = strip_triangles(s, (n - 1) as nat);
        let b = fan_triangles(s, (n - 1) as nat);
        assert forall|i: int| 0 <= i < 3 * n implies s.contains(
            #[trigger] strip_triangles(s, n)[i],
        ) by {
            if i < 3 * (n - 1) {
                assert(strip_triangles(s, n)[i] == a[i]);
            }
        }
        assert forall|i: int| 0 <= i < 3 * n implies s.contains(
            #[trigger] fan_triangles(s, n)[i],
        ) by {
            if i < 3 * (n - 1) {
                assert(fan_triangles(s, n)[i] == b[i]);
            }
        }
    }
}

/// The indices of a primitive: its own, or one for each vertex in turn.
pub open spec fn raw_indices(p: PrimitiveModel) -> Seq<u32> {
    match p.indices {
        Some(list) => list,
        None => Seq::new(p.positions->0.len(), |i: int| i as u32),
    }
}

/// The triangles of a primitive, where its mode makes triangles.
pub open spec fn triangle_indices(mode: PrimitiveMode, s: Seq<u32>) -> Option<Seq<u32>> {
    match mode {
        PrimitiveMode::Triangles => Some(s),
        PrimitiveMode::TriangleStrip => Some(strip_triangles(s, triangle_count(s.len()))),
        PrimitiveMode::TriangleFan => Some(fan_triangles(s, triangle_count(s.len()))),
        _ => None,
    }
}

/// Element `i` of a list, or a default behind its end.
pub open spec fn element_or<A>(s: Seq<A>, i: int, default: A) -> A {
    if i < s.len() {
        s[i]
    } else {
        default
    }
}

/// Points out of the surface where the file says nothing.
pub open spec fn default_normal() -> Float3 {
    Float3 { x: 0, y: 0, z: ONE }
}

/// Lies along the first axis where the file says nothing.
pub open spec fn default_tangent() -> Float4 {
    Float4 { x: ONE, y: 0, z: 0, w: ONE }
}

/// Vertex `i` of a primitive with the given tangents.
pub open spec fn vertex_of(p: PrimitiveModel, tangents: Seq<Float4>, i: int) -> Vertex {
    Vertex {
        position: p.positions->0[i],
        normal: element_or(p.normals, i, default_normal()),
        tangent: element_or(tangents, i, default_tangent()),
        tex_coord: element_or(p.tex_coords, i, Float2 { x: 0, y: 0 }),
        color: element_or(p.colors, i, Float3 { x: ONE, y: ONE, z: ONE }),
    }
}

/// The vertices of a primitive with the given tangents.
pub open spec fn vertices_of(p: PrimitiveModel, tangents: Seq<Float4>) -> Seq<Vertex> {
    Seq::new(p.positions->0.len(), |i: int| vertex_of(p, tangents, i))
}

/// What goes into a computation of tangents and what comes out of it.
pub struct TangentCall {
    pub positions: Vec<Float3>,
    pub normals: Vec<Float3>,
    pub tex_coords: Vec<Float2>,
    pub indices: Vec<u32>,
    pub result: Vec<Float4>,
}

/// The computation can give that result.
pub open spec fn computes<Q: FloatMath>(math: &Q, call: TangentCall) -> bool {
    call_ensures(
        Q::tangents,
        (math, &call.positions, &call.normals, &call.tex_coords, &call.indices),
        call.result,
    )
}

/// The computation is that of the tangents of a primitive with the given triangles.
pub open spec fn call_for(call: TangentCall, p: PrimitiveModel, triangles: Seq<u32>) -> bool {
    &&& p.positions == Some(call.positions@)
    &&& call.normals@ == p.normals
    &&& call.tex_coords@ == p.tex_coords
    &&& call.indices@ == triangles
}

/// The tangents of a primitive: those of the file, else computed ones where there are texture
/// coordinates, else none.
pub open spec fn tangents_of<Q: FloatMath>(
    math: &Q,
    p: PrimitiveModel,
    triangles: Seq<u32>,
    tangents: Seq<Float4>,
) -> bool {
    if p.tangents.len() > 0 {
        tangents == p.tangents
    } else if p.tex_coords.len() > 0 {
        exists|call: TangentCall| #[trigger]
            computes(math, call) && call_for(call, p, triangles) && tangents == call.result@
    } else {
        tangents.len() == 0
    }
}

/// The mesh of a primitive.
pub open spec fn mesh_of<Q: FloatMath>(math: &Q, p: PrimitiveModel, mesh: Mesh) -> bool {
    &&& triangle_indices(p.mode, raw_indices(p)) == Some(mesh.indices@)
    &&& exists|tangents: Seq<Float4>| #[trigger]
        tangents_of(math, p, mesh.indices@, tangents) && mesh.vertices@ == vertices_of(p, tangents)
}

/// The objection to a primitive.
pub open spec fn primitive_objection(p: PrimitiveModel) -> Option<MeshError> {
    if p.positions is None {
        Some(MeshError::MissingPositions)
    } else if triangle_indices(p.mode, raw_indices(p)) is None {
        Some(MeshError::UnsupportedMode)
    } else {
        None
    }
}

/// The vertices can be numbered where the primitive does not number them itself.
pub open spec fn numberable(p: PrimitiveModel) -> bool {
    p.indices is None ==> (p.positions matches Some(list) ==> list.len() <= u32::MAX)
}

/// Whether the vertices can be numbered where the primitive does not number them itself.
pub fn is_numberable(p: &RawPrimitive) -> (b: bool)
    ensures
        b == numberable(p@),
{
    match (&p.indices, &p.positions) {
        (None, Some(list)) => list.len() as u64 <= u32::MAX as u64,
        _ => true,
    }
}

fn count_up(n: u32) -> (out: Vec<u32>)
    ensures
        out@ == Seq::new(n as nat, |i: int| i as u32),
{
    let mut out: Vec<u32> = Vec::new();
    let mut i: u32 = 0;
    while i < n
        invariant
            i <= n,
            out@ =~= Seq::new(i as nat, |j: int| j as u32),
        decreases n - i,
    {
        out.push(i);
        i += 1;
    }
    out
}

fn get_or<A: Copy>(list: &Vec<A>, i: usize, default: A) -> (a: A)
    ensures
        a == element_or(list@, i as int, default),
{
    if i < list.len() {
        list[i]
    } else {
        default
    }
}

/// A list again.
pub(crate) fn copied<A: Copy>(list: &Vec<A>) -> (out: Vec<A>)
    ensures
        out@ == list@,
{
    let mut out: Vec<A> = Vec::new();
    let mut i: usize = 0;
    while i < list.len()
        invariant
            i <= list@.len(),
            out@ =~= list@.take(i as int),
        decreases list@.len() - i,
    {
        out.push(list[i]);
        i += 1;
    }
    proof {
        assert(list@.take(i as int) =~= list@);
    }
    out
}

/// Makes a mesh of a primitive: strips and fans become triangles, missing attributes get their
/// defaults, and tangents are computed where the file has none but has texture coordinates.
pub fn mesh_from_primitive<Q: FloatMath>(math: &Q, p: &RawPrimitive) -> (r: Result<Mesh, MeshError>)
    requires
        numberable(p@),
    ensures
        r matches Err(e) ==> primitive_objection(p@) == Some(e),
        r matches Ok(mesh) ==> primitive_objection(p@) is None && mesh_of(math, p@, mesh),
{
    let positions = match &p.positions {
        Some(positions) => positions,
        None => {
            return Err(MeshError::MissingPositions);
        },
    };
    let raw = match &p.indices {
        Some(list) => copied(list),
        None => count_up(positions.len() as u32),
    };
    proof {
        assert(raw@ =~= raw_indices(p@));
    }
    let indices = match p.mode {
        PrimitiveMode::Triangles => raw,
        PrimitiveMode::TriangleStrip => strip_to_triangles(&raw),
        PrimitiveMode::TriangleFan => fan_to_triangles(&raw),
        _ => {
            return Err(MeshError::UnsupportedMode);
        },
    };
    let no_tangents: Vec<Float4> = Vec::new();
    let computed: Vec<Float4>;
    let tangents: &Vec<Float4> = if p.tangents.len() > 0 {
        &p.tangents
    } else if p.tex_coords.len() > 0 {
        computed = math.tangents(positions, &p.normals, &p.tex_coords, &indices);
        proof {
            let call = TangentCall {
                positions: *positions,
                normals: p.normals,
                tex_coords: p.tex_coords,
                indices,
                result: computed,
            };
            assert(computes(math, call));
        }
        &computed
    } else {
        &no_tangents
    };
    proof {
        assert(tangents_of(math, p@, indices@, tangents@));
    }
    let mut vertices: Vec<Vertex> = Vec::new();
    let mut i: usize = 0;
    while i < positions.len()
        invariant
            i <= positions@.len(),
            p@.positions == Some(positions@),
            vertices@ =~= vertices_of(p@, tangents@).take(i as int),
        decreases positions@.len() - i,
    {
        vertices.push(
            Vertex {
                position: positions[i],
                normal: get_or(&p.normals, i, Float3 { x: 0, y: 0, z: ONE }),
                tangent: get_or(tangents, i, Float4 { x: ONE, y: 0, z: 0, w: ONE }),
                tex_coord: get_or(&p.tex_coords, i, Float2 { x: 0, y: 0 }),
                color: get_or(&p.colors, i, Float3 { x: ONE, y: ONE, z: ONE }),
            },
        );
        i += 1;
    }
    proof {
        assert(vertices@ =~= vertices_of(p@, tangents@));
    }
    let mesh = Mesh { vertices, indices };
    proof {
        assert(tangents_of(math, p@, mesh.indices@, tangents@));
    }
    Ok(mesh)
}

/// Triangle `k` of a strip has the corners `k`, `k + 1` and `k + 2`, the first two changed over in
/// every second triangle so that all turn the same way; triangle `k` of a fan has the first
/// corner and the corners `k + 1` and `k + 2`.
pub proof fn triangles_have_neighbouring_corners(s: Seq<u32>, n: nat, k: int)
    requires
        0 <= k < n <= triangle_count(s.len()),
    ensures
        strip_triangles(s, n).len() == 3 * n,
        k % 2 == 0 ==> strip_triangles(s, n)[3 * k] == s[k] && strip_triangles(s, n)[3 * k + 1]
            == s[k + 1],
        k % 2 == 1 ==> strip_triangles(s, n)[3 * k] == s[k + 1] && strip_triangles(s, n)[3 * k + 1]
            == s[k],
        strip_triangles(s, n)[3 * k + 2] == s[k + 2],
        fan_triangles(s, n).len() == 3 * n,
        fan_triangles(s, n)[3 * k] == s[0],
        fan_triangles(s, n)[3 * k + 1] == s[k + 1],
        fan_triangles(s, n)[3 * k + 2] == s[k + 2],
    decreases n,
{
    triangles_use_given_corners(s, n);
    triangles_use_given_corners(s, (n - 1) as nat);
    if k < n - 1 {
        triangles_have_neighbouring_corners(s, (n - 1) as nat, k);
    }
}

/// A list of `n` corners makes `n - 2` triangles, and none where there are fewer than three; a
/// list of triangles stays as it is; points and lines make none. Triangle `k` of a strip or a fan
/// ends with corner `k + 2`; that of a strip also has corner `k`, that of a fan the first.
pub proof fn modes_make_triangles(mode: PrimitiveMode, s: Seq<u32>, k: int)
    ensures
        mode is Triangles ==> triangle_indices(mode, s) == Some(s),
        mode is TriangleStrip || mode is TriangleFan ==> triangle_indices(mode, s) is Some
            && triangle_indices(mode, s)->0.len() == (if s.len() < 3 {
            0int
        } else {
            3 * (s.len() - 2)
        }),
        mode is TriangleStrip && 0 <= k < s.len() - 2 ==> triangle_indices(mode, s)->0[3 * k + 2]
            == s[k + 2] && triangle_indices(mode, s)->0[3 * k + k % 2] == s[k] && triangle_indices(
            mode,
            s,
        )->0[3 * k + 1 - k % 2] == s[k + 1],
        mode is TriangleFan && 0 <= k < s.len() - 2 ==> triangle_indices(mode, s)->0[3 * k + 2]
            == s[k + 2] && triangle_indices(mode, s)->0[3 * k + 1] == s[k + 1] && triangle_indices(
            mode,
            s,
        )->0[3 * k] == s[0],
        mode is Points || mode is Lines || mode is LineLoop || mode is LineStrip
            ==> triangle_indices(mode, s) is None,
{
    let n = triangle_count(s.len());
    triangles_use_given_corners(s, n);
    if 0 <= k < n {
        triangles_have_neighbouring_corners(s, n, k);
        assert(k % 2 == 0 || k % 2 == 1);
    }
}

/// Vertex `i` of a mesh has element `i` of each attribute of its primitive; an attribute that is
/// missing there is straight up for the normal, zero for the texture coordinates and white for
/// the colour. Tangents that are given are taken.
pub proof fn vertices_hold_their_attributes<Q: FloatMath>(
    math: &Q,
    p: PrimitiveModel,
    mesh: Mesh,
    i: int,
)
    requires
        p.positions is Some,
        mesh_of(math, p, mesh),
        0 <= i < p.positions->0.len(),
    ensures
        mesh.vertices@.len() == p.positions->0.len(),
        mesh.vertices@[i].position == p.positions->0[i],
        i < p.normals.len() ==> mesh.vertices@[i].normal == p.normals[i],
        i >= p.normals.len() ==> mesh.vertices@[i].normal == (Float3 { x: 0, y: 0, z: ONE }),
        i < p.tex_coords.len() ==> mesh.vertices@[i].tex_coord == p.tex_coords[i],
        i >= p.tex_coords.len() ==> mesh.vertices@[i].tex_coord == (Float2 { x: 0, y: 0 }),
        i < p.colors.len() ==> mesh.vertices@[i].color == p.colors[i],
        i >= p.colors.len() ==> mesh.vertices@[i].color == (Float3 { x: ONE, y: ONE, z: ONE }),
        i < p.tangents.len() ==> mesh.vertices@[i].tangent == p.tangents[i],
        0 < p.tangents.len() <= i ==> mesh.vertices@[i].tangent == (Float4 {
            x: ONE,
            y: 0,
            z: 0,
            w: ONE,
        }),
        p.tangents.len() == 0 && p.tex_coords.len() == 0 ==> mesh.vertices@[i].tangent == (Float4 {
            x: ONE,
            y: 0,
            z: 0,
            w: ONE,
        }),
{
    let tangents = choose|tangents: Seq<Float4>| #[trigger]
        tangents_of(math, p, mesh.indices@, tangents) && mesh.vertices@ == vertices_of(p, tangents);
    assert(mesh.vertices@[i] == vertex_of(p, tangents, i));
}

/// Tangents that are not given are computed of the positions, normals, texture coordinates and
/// triangles, where there are texture coordinates.
pub proof fn missing_tangents_are_computed<Q: FloatMath>(
    math: &Q,
    p: PrimitiveModel,
    mesh: Mesh,
) -> (call: TangentCall)
    requires
        p.positions is Some,
        mesh_of(math, p, mesh),
        p.tangents.len() == 0,
        p.tex_coords.len() > 0,
    ensures
        call_ensures(
            Q::tangents,
            (math, &call.positions, &call.normals, &call.tex_coords, &call.indices),
            call.result,
        ),
        call.positions@ == p.positions->0,
        call.normals@ == p.normals,
        call.tex_coords@ == p.tex_coords,
        call.indices@ == mesh.indices@,
        forall|i: int|
            0 <= i < p.positions->0.len() && i < call.result@.len() ==> (
            #[trigger] mesh.vertices@[i]).tangent == call.result@[i],
{
    let tangents = choose|tangents: Seq<Float4>| #[trigger]
        tangents_of(math, p, mesh.indices@, tangents) && mesh.vertices@ == vertices_of(p, tangents);
    let call = choose|call: TangentCall| #[trigger]
        computes(math, call) && call_for(call, p, mesh.indices@) && tangents == call.result@;
    assert forall|i: int|
        0 <= i < p.positions->0.len() && i < call.result@.len() implies (
    #[trigger] mesh.vertices@[i]).tangent == call.result@[i] by {
        assert(mesh.vertices@[i] == vertex_of(p, tangents, i));
    }
    call
}

/// A mesh is made of every primitive with positions whose mode makes triangles, and of no other;
/// without indices the corners are the vertices in their order.
pub proof fn only_triangles_with_positions_are_meshes(p: PrimitiveModel, i: int)
    ensures
        primitive_objection(p) is None <==> p.positions is Some && (p.mode is Triangles
            || p.mode is TriangleStrip || p.mode is TriangleFan),
        primitive_objection(p) == Some(MeshError::MissingPositions) <==> p.positions is None,
        p.indices is Some ==> raw_indices(p) == p.indices->0,
        p.indices is None && p.positions is Some ==> raw_indices(p).len()
            == p.positions->0.len(),
        p.indices is None && p.positions is Some && 0 <= i < p.positions->0.len() && i <= u32::MAX
            ==> raw_indices(p)[i] == i,
{
}

/// What is known of a primitive is what it holds, attribute by attribute.
pub proof fn primitives_are_seen_as_they_are(p: RawPrimitive)
    ensures
        p@.mode == p.mode,
        p@.positions is Some <==> p.positions is Some,
        p.positions is Some ==> p@.positions->0 == p.positions->0@,
        p@.normals == p.normals@,
        p@.tangents == p.tangents@,
        p@.tex_coords == p.tex_coords@,
        p@.colors == p.colors@,
        p@.indices is Some <==> p.indices is Some,
        p.indices is Some ==> p@.indices->0 == p.indices->0@,
{
}

} // verus!
