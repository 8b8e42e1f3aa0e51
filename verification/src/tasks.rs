//! Data that ready-made tasks share with their shaders, and their errors.
use vstd::prelude::*;
use crate::handle::ResourceHandle;

verus! {

/// Push constants of the alpha blend pass: the image that is added and the
/// one it is blended onto, their offsets and the extent of the blended region.
#[derive(Clone, Copy, Debug, PartialEq, Eq)]
pub struct AlphaBlendPush {
    pub add: ResourceHandle,
    pub dst: ResourceHandle,
    pub pad0: [ResourceHandle; 2],
    pub add_offset: [i32; 2],
    pub dst_offset: [i32; 2],
    pub extent: [u32; 2],
    pub pad1: [u32; 2],
}

/// Why downloading a buffer fails.
#[derive(Clone, Copy, Debug, PartialEq, Eq, Structural)]
pub enum DownloadError {
    /// The buffer cannot be read by the CPU, so it cannot be mapped.
    BufferCPUNotReadable,
    /// The task was not scheduled yet, so the download cannot be waited for.
    TaskNotScheduled,
}

/// The error of tasks that have no error of their own.
#[derive(Clone, Copy, Debug, PartialEq, Eq, Structural)]
pub struct NoTaskError;

impl NoTaskError {
    /// What the error says.
    pub fn message(&self) -> (r: &'static str)
        ensures
            r@ == "NoError"@,
    {
        "NoError"
    }
}


/// Where a mesh's data lies once the meshes of a UI frame are packed one after
/// the other into one vertex and one index buffer.
#[derive(Clone, Copy, Debug, PartialEq, Eq, Structural)]
pub struct MeshRange {
    pub vertex_offset: u32,
    pub index_offset: u32,
    pub vertex_buffer_size: u32,
    pub index_buffer_size: u32,
}

/// The number of vertices (`.0`) and of indices (`.1`) of the first `k`
/// meshes of `meshes`, each given by its vertex and index count.
pub open spec fn packed_counts(meshes: Seq<(usize, usize)>, k: int) -> (int, int)
    decreases k,
{
    if k <= 0 {
        (0, 0)
    } else {
        let p = packed_counts(meshes, k - 1);
        (p.0 + meshes[k - 1].0, p.1 + meshes[k - 1].1)
    }
}

/// Lays out the meshes of a UI frame, each given by its vertex and index
/// count, one after the other in shared vertex and index buffers: each mesh
/// starts where the meshes before it end. All counts and offsets have to fit
/// in a `u32`.
pub fn pack_mesh_ranges(meshes: &Vec<(usize, usize)>) -> (r: Vec<MeshRange>)
    requires
        packed_counts(meshes@, meshes@.len() as int).0 <= u32::MAX,
        packed_counts(meshes@, meshes@.len() as int).1 <= u32::MAX,
    ensures
        r@.len() == meshes@.len(),
        forall|k: int| 0 <= k < r@.len() ==> {
            &&& (#[trigger] r@[k]).vertex_offset == packed_counts(meshes@, k).0
            &&& r@[k].index_offset == packed_counts(meshes@, k).1
            &&& r@[k].vertex_buffer_size == meshes@[k].0
            &&& r@[k].index_buffer_size == meshes@[k].1
        },
{
    let mut out: Vec<MeshRange> = Vec::new();
    let mut vertices: u32 = 0;
    let mut indices: u32 = 0;
    let mut k: usize = 0;
    proof {
        lemma_packed_counts_grow(meshes@, 0, meshes@.len() as int);
    }
    while k < meshes.len()
        invariant
            k <= meshes@.len(),
            out@.len() == k,
            vertices == packed_counts(meshes@, k as int).0,
            indices == packed_counts(meshes@, k as int).1,
            packed_counts(meshes@, meshes@.len() as int).0 <= u32::MAX,
            packed_counts(meshes@, meshes@.len() as int).1 <= u32::MAX,
            forall|j: int| 0 <= j < k ==> {
                &&& (#[trigger] out@[j]).vertex_offset == packed_counts(meshes@, j).0
                &&& out@[j].index_offset == packed_counts(meshes@, j).1
                &&& out@[j].vertex_buffer_size == meshes@[j].0
                &&& out@[j].index_buffer_size == meshes@[j].1
            },
        decreases meshes@.len() - k,
    {
        let (nv, ni) = meshes[k];
        proof {
            lemma_packed_counts_grow(meshes@, k + 1, meshes@.len() as int);
        }
        out.push(MeshRange {
            vertex_offset: vertices,
            index_offset: indices,
            vertex_buffer_size: nv as u32,
            index_buffer_size: ni as u32,
        });
        vertices = vertices + nv as u32;
        indices = indices + ni as u32;
        k = k + 1;
    }
    out
}

/// Packing more meshes never takes less room.
proof fn lemma_packed_counts_grow(meshes: Seq<(usize, usize)>, a: int, b: int)
    requires
        0 <= a <= b,
    ensures
        packed_counts(meshes, a).0 <= packed_counts(meshes, b).0,
        packed_counts(meshes, a).1 <= packed_counts(meshes, b).1,
    decreases b - a,
{
    if a < b {
        lemma_packed_counts_grow(meshes, a, b - 1);
    }
}

} // verus!
