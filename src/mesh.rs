use vstd::prelude::*;

verus! {

broadcast use vstd::seq_lib::lemma_seq_contains_after_push;

/// An undirected edge with its lower vertex index first.
pub open spec fn normalized(a: usize, b: usize) -> (usize, usize) {
    if a <= b {
        (a, b)
    } else {
        (b, a)
    }
}

/// The edge of a face ring from its `i`-th vertex to the next, wrapping round.
pub open spec fn ring_edge(ring: Seq<usize>, i: int) -> (usize, usize) {
    normalized(ring[i], ring[if i + 1 < ring.len() {
        i + 1
    } else {
        0
    }])
}

/// The index structure of a convex face mesh: how many vertices it has, each
/// face as a ring of vertex indices, and the set of undirected edges, each
/// stored once with its lower index first. Vertex positions are kept by the
/// caller in the same order.
#[derive(Clone, Debug)]
pub struct MeshTopology {
    vertex_count: usize,
    faces: Vec<Vec<usize>>,
    edges: Vec<(usize, usize)>,
}

impl MeshTopology {
    pub closed spec fn vertex_count_spec(&self) -> nat {
        self.vertex_count as nat
    }

    pub closed spec fn faces_spec(&self) -> Seq<Seq<usize>> {
        self.faces@.map_values(|f: Vec<usize>| f@)
    }

    pub closed spec fn edges_spec(&self) -> Seq<(usize, usize)> {
        self.edges@
    }

    /// Edges are distinct, lower index first, and every index names a vertex.
    pub open spec fn wf(&self) -> bool {
        &&& self.edges_spec().no_duplicates()
        &&& forall|i: int|
            0 <= i < self.edges_spec().len() ==> {
                let (a, b) = #[trigger] self.edges_spec()[i];
                a <= b && (b as nat) < self.vertex_count_spec()
            }
        &&& forall|f: int, j: int|
            0 <= f < self.faces_spec().len() && 0 <= j < self.faces_spec()[f].len() ==> (
            #[trigger] self.faces_spec()[f][j] as nat) < self.vertex_count_spec()
    }

    /// A mesh with no geometry.
    pub fn new() -> (r: MeshTopology)
        ensures
            r.wf(),
            r.vertex_count_spec() == 0,
            r.faces_spec().len() == 0,
            r.edges_spec().len() == 0,
    {
        let r = MeshTopology { vertex_count: 0, faces: Vec::new(), edges: Vec::new() };
        assert(r.faces_spec() =~= Seq::<Seq<usize>>::empty());
        r
    }

    /// Registers one more vertex and returns its index.
    pub fn add_vertex(&mut self) -> (r: usize)
        requires
            old(self).wf(),
            old(self).vertex_count_spec() < usize::MAX,
        ensures
            final(self).wf(),
            r == old(self).vertex_count_spec(),
            final(self).vertex_count_spec() == old(self).vertex_count_spec() + 1,
            final(self).faces_spec() == old(self).faces_spec(),
            final(self).edges_spec() == old(self).edges_spec(),
    {
        let r = self.vertex_count;
        self.vertex_count = self.vertex_count + 1;
        assert(self.faces_spec() == old(self).faces_spec());
        assert(self.edges_spec() == old(self).edges_spec());
        assert forall|i: int| 0 <= i < self.edges_spec().len() implies {
            let (a, b) = #[trigger] self.edges_spec()[i];
            a <= b && (b as nat) < self.vertex_count_spec()
        } by {
            assert(old(self).edges_spec()[i] == self.edges_spec()[i]);
        }
        assert forall|f: int, j: int|
            0 <= f < self.faces_spec().len() && 0 <= j < self.faces_spec()[f].len() implies (
            #[trigger] self.faces_spec()[f][j] as nat) < self.vertex_count_spec() by {
            assert(old(self).faces_spec()[f][j] == self.faces_spec()[f][j]);
        }
        r
    }

    /// Stores the edge between two vertices unless it is stored already, in
    /// either direction.
    pub fn add_edge(&mut self, index1: usize, index2: usize)
        requires
            old(self).wf(),
            (index1 as nat) < old(self).vertex_count_spec(),
            (index2 as nat) < old(self).vertex_count_spec(),
        ensures
            final(self).wf(),
            final(self).vertex_count_spec() == old(self).vertex_count_spec(),
            final(self).faces_spec() == old(self).faces_spec(),
            final(self).edges_spec() == (if old(self).edges_spec().contains(normalized(index1, index2)) {
                old(self).edges_spec()
            } else {
                old(self).edges_spec().push(normalized(index1, index2))
            }),
    {
        let low = if index1 <= index2 {
            index1
        } else {
            index2
        };
        let high = if index1 <= index2 {
            index2
        } else {
            index1
        };
        assert((low, high) == normalized(index1, index2));
        let mut i: usize = 0;
        while i < self.edges.len()
            invariant
                i <= self.edges@.len(),
                self.edges@ == old(self).edges@,
                self.faces@ == old(self).faces@,
                self.vertex_count == old(self).vertex_count,
                self.wf(),
                (low, high) == normalized(index1, index2),
                forall|j: int| 0 <= j < i ==> self.edges@[j] != (low, high),
            decreases self.edges.len() - i,
        {
            let (a, b) = self.edges[i];
            assert((a, b) == self.edges@[i as int]);
            if a == low && b == high {
                assert(old(self).edges_spec().contains(normalized(index1, index2)));
                return;
            }
            i += 1;
        }
        assert(!old(self).edges_spec().contains(normalized(index1, index2)));
        self.edges.push((low, high));
        assert(self.faces_spec() =~= old(self).faces_spec());
    }

    /// Adds a face given as a ring of vertex indices, and the edges of its
    /// ring that are not stored yet.
    pub fn add_face(&mut self, ring: Vec<usize>)
        requires
            old(self).wf(),
            3 <= ring.len(),
            forall|j: int| 0 <= j < ring.len() ==> (#[trigger] ring@[j] as nat) < old(self).vertex_count_spec(),
        ensures
            final(self).wf(),
            final(self).vertex_count_spec() == old(self).vertex_count_spec(),
            final(self).faces_spec() == old(self).faces_spec().push(ring@),
            final(self).edges_spec().subrange(0, old(self).edges_spec().len() as int)
                == old(self).edges_spec(),
            forall|e: (usize, usize)|
                final(self).edges_spec().contains(e) <==> (old(self).edges_spec().contains(e) || exists|
                    i: int,
                |
                    0 <= i < ring.len() && e == #[trigger] ring_edge(ring@, i)),
    {
        let mut i: usize = 0;
        while i < ring.len()
            invariant
                self.wf(),
                i <= ring.len(),
                3 <= ring.len(),
                self.vertex_count_spec() == old(self).vertex_count_spec(),
                self.faces_spec() == old(self).faces_spec(),
                forall|j: int| 0 <= j < ring.len() ==> (#[trigger] ring@[j] as nat) < old(self).vertex_count_spec(),
                self.edges_spec().subrange(0, old(self).edges_spec().len() as int) == old(self).edges_spec(),
                old(self).edges_spec().len() <= self.edges_spec().len(),
                forall|e: (usize, usize)|
                    self.edges_spec().contains(e) <==> (old(self).edges_spec().contains(e) || exists|
                        k: int,
                    |
                        0 <= k < i && e == #[trigger] ring_edge(ring@, k)),
            decreases ring.len() - i,
        {
            let next: usize = if i + 1 < ring.len() {
                i + 1
            } else {
                0
            };
            let ghost before = self.edges_spec();
            assert((ring@[i as int] as nat) < old(self).vertex_count_spec());
            assert((ring@[next as int] as nat) < old(self).vertex_count_spec());
            self.add_edge(ring[i], ring[next]);
            proof {
                assert(ring_edge(ring@, i as int) == normalized(ring@[i as int], ring@[next as int]));
                assert(self.edges_spec().subrange(0, old(self).edges_spec().len() as int) =~= before.subrange(
                    0,
                    old(self).edges_spec().len() as int,
                ));
                assert forall|e: (usize, usize)|
                    self.edges_spec().contains(e) <==> (old(self).edges_spec().contains(e) || exists|
                        k: int,
                    |
                        0 <= k < i + 1 && e == #[trigger] ring_edge(ring@, k)) by {
                    if e == ring_edge(ring@, i as int) {
                        assert(self.edges_spec().contains(e));
                    }
                    if exists|k: int| 0 <= k < i + 1 && e == #[trigger] ring_edge(ring@, k) {
                        let k = choose|k: int| 0 <= k < i + 1 && e == #[trigger] ring_edge(ring@, k);
                        if k < i {
                            assert(before.contains(e));
                        }
                    }
                }
            }
            i += 1;
        }
        self.faces.push(ring);
        proof {
            assert(self.faces_spec() =~= old(self).faces_spec().push(ring@));
        }
    }

    /// The number of faces.
    pub fn face_count(&self) -> (r: usize)
        ensures
            r == self.faces_spec().len(),
    {
        self.faces.len()
    }

    /// The number of distinct edges.
    pub fn edge_count(&self) -> (r: usize)
        ensures
            r == self.edges_spec().len(),
    {
        self.edges.len()
    }

    /// The number of vertices.
    pub fn vertex_count(&self) -> (r: usize)
        ensures
            r == self.vertex_count_spec(),
    {
        self.vertex_count
    }

    /// Whether the mesh can collide: it has a face, an edge and at least three
    /// vertices.
    pub fn is_valid(&self) -> (r: bool)
        ensures
            r == (3 <= self.vertex_count_spec() && 1 <= self.faces_spec().len() && 1
                <= self.edges_spec().len()),
    {
        3 <= self.vertex_count && 1 <= self.faces.len() && 1 <= self.edges.len()
    }

    /// The stored edge at a position.
    pub fn edge(&self, i: usize) -> (r: (usize, usize))
        requires
            i < self.edges_spec().len(),
        ensures
            r == self.edges_spec()[i as int],
    {
        self.edges[i]
    }

    /// The vertex ring of the face at a position.
    pub fn face(&self, i: usize) -> (r: Vec<usize>)
        requires
            i < self.faces_spec().len(),
        ensures
            r@ == self.faces_spec()[i as int],
    {
        let f = &self.faces[i];
        let mut r: Vec<usize> = Vec::new();
        let mut j: usize = 0;
        while j < f.len()
            invariant
                j <= f.len(),
                r@ == f@.subrange(0, j as int),
            decreases f.len() - j,
        {
            r.push(f[j]);
            j += 1;
            assert(r@ =~= f@.subrange(0, j as int));
        }
        assert(r@ =~= f@);
        r
    }
}

} // verus!
