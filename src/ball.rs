use vstd::prelude::*;

verus! {

/// Number of latitude rings of the ball mesh, pole to pole.
pub const RINGS: u32 = 12;

/// Number of vertices on each ring; the first and last coincide on the seam.
pub const SEGMENTS: u32 = 16;

/// A vertex of the ball mesh, by its place on the latitude/longitude grid.
/// Ring `i` lies at polar angle `i * PI / 11` and segment `j` at azimuth
/// `j * 2 * PI / 15`; the texture coordinates are `(j / 15, i / 10)`.
#[derive(Debug, Clone, Copy, PartialEq, Eq, Structural)]
pub struct BallVertex {
    pub ring: u32,
    pub segment: u32,
}

/// The vertex stored at position `k` of the vertex list.
pub open spec fn ball_vertex_at(k: int) -> BallVertex {
    BallVertex { ring: (k / SEGMENTS as int) as u32, segment: (k % SEGMENTS as int) as u32 }
}

/// Index `t` of the index list: quad `q = t / 6`, between rings `q / 15` and
/// `q / 15 + 1` and segments `q % 15` and `q % 15 + 1`, as two triangles.
pub open spec fn ball_index_at(t: int) -> int {
    let q = t / 6;
    let a = SEGMENTS as int * (q / (SEGMENTS as int - 1)) + q % (SEGMENTS as int - 1);
    let c = a + SEGMENTS as int + 1;
    let b = a + SEGMENTS as int;
    let d = a + 1;
    let r = t % 6;
    if r == 0 {
        a
    } else if r == 1 {
        c
    } else if r == 2 {
        b
    } else if r == 3 {
        d
    } else if r == 4 {
        c
    } else {
        a
    }
}

/// Vertices and triangle indices of a unit ball made of 12 rings of 16
/// vertices each.
pub fn generate_ball() -> (r: (Vec<BallVertex>, Vec<u32>))
    ensures
        r.0@.len() == RINGS * SEGMENTS,
        forall|k: int| 0 <= k < r.0@.len() ==> #[trigger] r.0@[k] == ball_vertex_at(k),
        r.1@.len() == 6 * (RINGS - 1) * (SEGMENTS - 1),
        forall|t: int| 0 <= t < r.1@.len() ==> #[trigger] r.1@[t] as int == ball_index_at(t),
{
    let mut vertices: Vec<BallVertex> = Vec::new();
    let mut i: u32 = 0;
    while i < RINGS
        invariant
            i <= RINGS,
            vertices@.len() == 16 * i,
            forall|k: int| 0 <= k < vertices@.len() ==> #[trigger] vertices@[k] == ball_vertex_at(k),
        decreases RINGS - i,
    {
        let mut j: u32 = 0;
        while j < SEGMENTS
            invariant
                i < RINGS,
                j <= SEGMENTS,
                vertices@.len() == 16 * i + j,
                forall|k: int| 0 <= k < vertices@.len() ==> #[trigger] vertices@[k] == ball_vertex_at(k),
            decreases SEGMENTS - j,
        {
            proof {
                let k = SEGMENTS * i + j;
                assert(k / SEGMENTS as int == i as int) by (nonlinear_arith)
                    requires
                        k == 16 * i + j,
                        j < 16,
                ;
                assert(k % SEGMENTS as int == j as int) by (nonlinear_arith)
                    requires
                        k == 16 * i + j,
                        j < 16,
                ;
            }
            vertices.push(BallVertex { ring: i, segment: j });
            j = j + 1;
        }
        i = i + 1;
    }
    let mut indices: Vec<u32> = Vec::new();
    let mut i: u32 = 0;
    while i < RINGS - 1
        invariant
            i <= RINGS - 1,
            indices@.len() == 90 * i,
            forall|t: int| 0 <= t < indices@.len() ==> #[trigger] indices@[t] as int == ball_index_at(t),
        decreases RINGS - 1 - i,
    {
        let mut j: u32 = 0;
        while j < SEGMENTS - 1
            invariant
                i < RINGS - 1,
                j <= SEGMENTS - 1,
                indices@.len() == 90 * i + 6 * j,
                forall|t: int| 0 <= t < indices@.len() ==> #[trigger] indices@[t] as int == ball_index_at(t),
            decreases SEGMENTS - 1 - j,
        {
            let a = SEGMENTS * i + j;
            let b = a + SEGMENTS;
            let c = b + 1;
            let d = a + 1;
            let ghost base = indices@.len() as int;
            proof {
                let q = 15 * i + j;
                assert(base == 6 * q);
                assert(q / 15 == i as int && q % 15 == j as int) by (nonlinear_arith)
                    requires
                        q == 15 * i + j,
                        j < 15,
                ;
            }
            indices.push(a);
            indices.push(c);
            indices.push(b);
            indices.push(d);
            indices.push(c);
            indices.push(a);
            proof {
                assert forall|t: int| 0 <= t < indices@.len() implies #[trigger] indices@[t] as int == ball_index_at(t) by {
                    if t >= base {
                        let r = t - base;
                        let q = 15 * i + j;
                        assert(t / 6 == q && t % 6 == r) by (nonlinear_arith)
                            requires
                                0 <= r < 6,
                                q >= 0,
                                t == 6 * q + r,
                        ;
                        assert(q / 15 == i as int && q % 15 == j as int) by (nonlinear_arith)
                            requires
                                q == 15 * i + j,
                                j < 15,
                        ;
                    }
                }
            }
            j = j + 1;
        }
        i = i + 1;
    }
    (vertices, indices)
}

} // verus!
