//! Bookkeeping for GPU meshes and textures.
//!
//! The library tracks mesh identities, buffer handles and vertex counts;
//! the host performs the graphics calls with the handles these methods hand
//! out. A repository maps names to unique mesh ids and keeps the meshes in
//! id order.

use vstd::prelude::*;

verus! {

/// Hands out unique, increasing indices.
pub struct UniqueIndexer(pub usize);

impl UniqueIndexer {
    pub fn new() -> (r: UniqueIndexer)
        ensures
            r.0 == 0,
    {
        UniqueIndexer(0)
    }

    /// The next free index; never handed out twice.
    pub fn get_next(&mut self) -> (r: usize)
        requires
            old(self).0 < usize::MAX,
        ensures
            r == old(self).0,
            final(self).0 == old(self).0 + 1,
    {
        let t = self.0;
        self.0 = self.0 + 1;
        t
    }
}

/// A mesh: its repository id, the buffer handles it owns, its vertex-array
/// handle and how many vertices to draw.
pub struct Mesh {
    pub uid: usize,
    pub buffer_ids: Vec<u32>,
    pub array_id: u32,
    pub vertex_count: i32,
}

impl Mesh {
    /// Fresh bookkeeping around a vertex-array handle the host created.
    pub fn new(array_id: u32) -> (r: Mesh)
        ensures
            r.uid == 0,
            r.buffer_ids@ == Seq::<u32>::empty(),
            r.array_id == array_id,
            r.vertex_count == -1,
    {
        Mesh { uid: 0, buffer_ids: Vec::new(), array_id, vertex_count: -1 }
    }

    /// A lightweight token carrying everything needed to draw this mesh.
    pub fn downgrade(&self) -> (r: MeshToken)
        ensures
            r.uid == self.uid,
            r.array_id == self.array_id,
            r.vertex_count == self.vertex_count,
    {
        MeshToken { uid: self.uid, array_id: self.array_id, vertex_count: self.vertex_count }
    }

    /// The vertex-array handle the host must bind.
    pub fn bind_vertex_array(&self) -> (r: u32)
        ensures
            r == self.array_id,
    {
        self.array_id
    }

    /// The element count for an indexed triangle draw.
    pub fn draw_triangle_elements(&self) -> (r: i32)
        ensures
            r == self.vertex_count,
    {
        self.vertex_count
    }

    /// The element count for an indexed point draw.
    pub fn draw_point_elements(&self) -> (r: i32)
        ensures
            r == self.vertex_count,
    {
        self.vertex_count
    }
}

/// A copyable stand-in for a mesh: id, vertex-array handle, vertex count.
#[derive(Clone, Copy, Debug)]
pub struct MeshToken {
    pub uid: usize,
    pub array_id: u32,
    pub vertex_count: i32,
}

impl MeshToken {
    pub fn bind_vertex_array(&self) -> (r: u32)
        ensures
            r == self.array_id,
    {
        self.array_id
    }

    pub fn draw_triangle_elements(&self) -> (r: i32)
        ensures
            r == self.vertex_count,
    {
        self.vertex_count
    }

    pub fn draw_point_elements(&self) -> (r: i32)
        ensures
            r == self.vertex_count,
    {
        self.vertex_count
    }
}

/// A texture handle the host created; the library only keeps its identity.
pub struct Texture(pub u32);

impl Texture {
    pub fn new(t: u32) -> (r: Texture)
        ensures
            r.0 == t,
    {
        Texture(t)
    }
}

/// Meshes keyed by a unique name and by a unique, increasing id.
pub struct MeshRepo {
    pub unique_indexer: UniqueIndexer,
    pub mesh_i_data: Vec<Mesh>,
    pub mesh_map: Vec<(String, usize)>,
}

impl MeshRepo {
    /// Ids strictly increase along the mesh list and stay below the next
    /// index to be handed out.
    pub open spec fn wf(self) -> bool {
        &&& forall|i: int, j: int|
            0 <= i < j < self.mesh_i_data@.len() ==> #[trigger] self.mesh_i_data@[i].uid
                < #[trigger] self.mesh_i_data@[j].uid
        &&& forall|i: int|
            0 <= i < self.mesh_i_data@.len() ==> #[trigger] self.mesh_i_data@[i].uid
                < self.unique_indexer.0
    }

    /// Whether some map entry carries this name.
    pub open spec fn has_name(self, name: Seq<char>) -> bool {
        exists|i: int| 0 <= i < self.mesh_map@.len() && (#[trigger] self.mesh_map@[i]).0@ == name
    }

    pub fn new() -> (r: MeshRepo)
        ensures
            r.mesh_i_data@.len() == 0,
            r.mesh_map@.len() == 0,
            r.unique_indexer.0 == 0,
            r.wf(),
    {
        MeshRepo {
            unique_indexer: UniqueIndexer::new(),
            mesh_i_data: Vec::new(),
            mesh_map: Vec::new(),
        }
    }

    /// Registers a mesh under a fresh id and a new name, handing back its
    /// draw token.
    pub fn add_mesh(&mut self, name: String, mesh: Mesh) -> (r: MeshToken)
        requires
            old(self).wf(),
            old(self).unique_indexer.0 < usize::MAX,
            !old(self).has_name(name@),
        ensures
            final(self).wf(),
            final(self).mesh_i_data@.len() == old(self).mesh_i_data@.len() + 1,
            final(self).mesh_i_data@.last().uid == old(self).unique_indexer.0,
            final(self).mesh_i_data@.last().array_id == mesh.array_id,
            final(self).mesh_i_data@.last().vertex_count == mesh.vertex_count,
            final(self).mesh_map@ == old(self).mesh_map@.push(
                (name, old(self).unique_indexer.0),
            ),
            r.uid == old(self).unique_indexer.0,
            r.array_id == mesh.array_id,
            r.vertex_count == mesh.vertex_count,
    {
        let unique_index = self.unique_indexer.get_next();
        let mut mesh = mesh;
        mesh.uid = unique_index;
        let token = mesh.downgrade();
        self.mesh_i_data.push(mesh);
        self.mesh_map.push((name, unique_index));
        token
    }

    /// The registered mesh with this id, if any.
    pub fn get_mesh_by_uid(&self, uid: usize) -> (r: Option<&Mesh>)
        ensures
            match r {
                Some(m) => exists|i: int|
                    0 <= i < self.mesh_i_data@.len() && #[trigger] self.mesh_i_data@[i].uid == uid
                        && m == &self.mesh_i_data@[i],
                None => forall|i: int|
                    0 <= i < self.mesh_i_data@.len() ==> #[trigger] self.mesh_i_data@[i].uid
                        != uid,
            },
    {
        let n = self.mesh_i_data.len();
        let mut i: usize = 0;
        while i < n
            invariant
                i <= n,
                n == self.mesh_i_data@.len(),
                forall|q: int| 0 <= q < i ==> #[trigger] self.mesh_i_data@[q].uid != uid,
            decreases n - i,
        {
            if self.mesh_i_data[i].uid == uid {
                return Some(&self.mesh_i_data[i]);
            }
            i += 1;
        }
        None
    }

    /// The registered mesh under this name, if any.
    pub fn get_mesh_by_name(&self, name: &String) -> (r: Option<&Mesh>)
        ensures
            r is Some ==> exists|i: int|
                0 <= i < self.mesh_i_data@.len() && r == Some(&self.mesh_i_data@[i]),
    {
        let n = self.mesh_map.len();
        let mut i: usize = 0;
        while i < n
            invariant
                i <= n,
                n == self.mesh_map@.len(),
            decreases n - i,
        {
            if self.mesh_map[i].0.eq(name) {
                return self.get_mesh_by_uid(self.mesh_map[i].1);
            }
            i += 1;
        }
        None
    }

    /// Unregisters the name and drops the mesh it pointed at.
    pub fn remove_mesh(&mut self, name: &String)
        requires
            old(self).wf(),
        ensures
            final(self).wf(),
            final(self).mesh_map@.len() <= old(self).mesh_map@.len(),
            final(self).mesh_i_data@.len() <= old(self).mesh_i_data@.len(),
            final(self).unique_indexer.0 == old(self).unique_indexer.0,
    {
        let n = self.mesh_map.len();
        let mut pos: usize = n;
        let mut uid: usize = 0;
        let mut i: usize = 0;
        while i < n && pos == n
            invariant
                i <= n,
                pos == n || pos < n,
                n == self.mesh_map@.len(),
                self.mesh_map@ == old(self).mesh_map@,
                self.mesh_i_data@ == old(self).mesh_i_data@,
                self.unique_indexer == old(self).unique_indexer,
            decreases n - i,
        {
            if self.mesh_map[i].0.eq(name) {
                pos = i;
                uid = self.mesh_map[i].1;
            }
            i += 1;
        }
        if pos < n {
            self.mesh_map.remove(pos);
            let m = self.mesh_i_data.len();
            let mut pos2: usize = m;
            let mut j: usize = 0;
            while j < m && pos2 == m
                invariant
                    j <= m,
                    pos2 == m || pos2 < m,
                    m == self.mesh_i_data@.len(),
                    self.mesh_i_data@ == old(self).mesh_i_data@,
                    self.unique_indexer == old(self).unique_indexer,
                decreases m - j,
            {
                if self.mesh_i_data[j].uid == uid {
                    pos2 = j;
                }
                j += 1;
            }
            if pos2 < m {
                self.mesh_i_data.remove(pos2);
                proof {
                    assert forall|x: int, y: int|
                        0 <= x < y < self.mesh_i_data@.len() implies #[trigger] self.mesh_i_data@[x].uid
                        < #[trigger] self.mesh_i_data@[y].uid by {
                        if y < pos2 {
                            assert(self.mesh_i_data@[x] == old(self).mesh_i_data@[x]);
                            assert(self.mesh_i_data@[y] == old(self).mesh_i_data@[y]);
                        } else if x >= pos2 {
                            assert(self.mesh_i_data@[x] == old(self).mesh_i_data@[x + 1]);
                            assert(self.mesh_i_data@[y] == old(self).mesh_i_data@[y + 1]);
                        } else {
                            assert(self.mesh_i_data@[x] == old(self).mesh_i_data@[x]);
                            assert(self.mesh_i_data@[y] == old(self).mesh_i_data@[y + 1]);
                        }
                    }
                    assert forall|x: int|
                        0 <= x < self.mesh_i_data@.len() implies #[trigger] self.mesh_i_data@[x].uid
                        < self.unique_indexer.0 by {
                        if x < pos2 {
                            assert(self.mesh_i_data@[x] == old(self).mesh_i_data@[x]);
                        } else {
                            assert(self.mesh_i_data@[x] == old(self).mesh_i_data@[x + 1]);
                        }
                    }
                }
            }
        }
    }
}

/// A fresh, empty mesh repository for the host to own.
pub fn init() -> (r: MeshRepo)
    ensures
        r.mesh_i_data@.len() == 0,
        r.mesh_map@.len() == 0,
        r.wf(),
{
    MeshRepo::new()
}

/// Collects every buffer and vertex-array handle of the repository so the
/// host can release them.
pub fn cleanup(repo: &MeshRepo) -> (r: Vec<u32>)
{
    let mut out: Vec<u32> = Vec::new();
    let n = repo.mesh_i_data.len();
    let mut i: usize = 0;
    while i < n
        invariant
            i <= n,
            n == repo.mesh_i_data@.len(),
        decreases n - i,
    {
        let m = repo.mesh_i_data[i].buffer_ids.len();
        let mut j: usize = 0;
        while j < m
            invariant
                j <= m,
                i < n,
                n == repo.mesh_i_data@.len(),
                m == repo.mesh_i_data@[i as int].buffer_ids@.len(),
            decreases m - j,
        {
            out.push(repo.mesh_i_data[i].buffer_ids[j]);
            j += 1;
        }
        out.push(repo.mesh_i_data[i].array_id);
        i += 1;
    }
    out
}

} // verus!
