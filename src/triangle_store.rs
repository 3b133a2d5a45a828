//! The triangle store: every tracked mesh's triangles, flattened into one
//! position buffer, with a table of (mesh, offset, vertex count) entries
//! kept contiguous and compacted.

use vstd::prelude::*;
use crate::geom::IVec3;

verus! {

/// One mesh's slice of the position buffer: `count` vertices (three per
/// triangle) starting at `offset`.
#[derive(Clone, Copy, Debug, PartialEq, Eq, Structural)]
pub struct MeshEntry {
    pub mesh_id: u64,
    pub offset: usize,
    pub count: usize,
}

/// Vertices held by the first `n` entries.
#[verifier::opaque]
pub open spec fn prefix_total(es: Seq<MeshEntry>, n: int) -> int
    decreases n,
{
    if n <= 0 {
        0
    } else {
        prefix_total(es, n - 1) + es[n - 1].count
    }
}

/// Entries laid out back to back from the start of a buffer of `len`
/// vertices, with no holes, each a whole number of triangles, one per mesh.
pub open spec fn contiguous(es: Seq<MeshEntry>, len: int) -> bool {
    &&& forall|i: int| 0 <= i < es.len() ==> (#[trigger] es[i]).offset == prefix_total(es, i)
    &&& forall|i: int| 0 <= i < es.len() ==> (#[trigger] es[i]).count % 3 == 0
    &&& len == prefix_total(es, es.len() as int)
    &&& forall|i: int, j: int| 0 <= i < j < es.len() ==> es[i].mesh_id != es[j].mesh_id
}

/// The vertices of the entry.
pub open spec fn entry_vertices(e: MeshEntry, positions: Seq<IVec3>) -> Seq<IVec3> {
    positions.subrange(e.offset as int, e.offset + e.count)
}

/// The index of the entry for `id`, if any.
pub open spec fn index_of(es: Seq<MeshEntry>, id: u64) -> Option<int> {
    if exists|i: int| 0 <= i < es.len() && (#[trigger] es[i]).mesh_id == id {
        Some(choose|i: int| 0 <= i < es.len() && (#[trigger] es[i]).mesh_id == id)
    } else {
        None
    }
}

/// The whole triangles of `verts`, as many as fit beside `held` vertices
/// under a cap of `max_tris` triangles.
pub open spec fn stored_part(verts: Seq<IVec3>, held: int, max_tris: int) -> Seq<IVec3> {
    let room = max_tris - held / 3;
    let tris = if verts.len() / 3 <= room { (verts.len() / 3) as int } else { room };
    verts.take(3 * tris)
}

pub struct TriangleStore {
    entries: Vec<MeshEntry>,
    positions: Vec<IVec3>,
    max_tri_count: usize,
}

proof fn lemma_prefix_step(es: Seq<MeshEntry>, n: int)
    requires
        0 <= n,
    ensures
        prefix_total(es, n + 1) == prefix_total(es, n) + es[n].count,
        prefix_total(es, 0) == 0,
{
    reveal(prefix_total);
}

proof fn lemma_prefix_mono(es: Seq<MeshEntry>, a: int, b: int)
    requires
        0 <= a <= b <= es.len(),
    ensures
        prefix_total(es, a) <= prefix_total(es, b),
        a < b ==> prefix_total(es, a) + es[a].count <= prefix_total(es, b),
    decreases b - a,
{
    if a < b {
        lemma_prefix_mono(es, a, b - 1);
        lemma_prefix_step(es, b - 1);
    }
}

proof fn lemma_prefix_same_counts(es: Seq<MeshEntry>, fs: Seq<MeshEntry>, n: int)
    requires
        0 <= n <= es.len(),
        n <= fs.len(),
        forall|i: int| 0 <= i < n ==> (#[trigger] es[i]).count == fs[i].count,
    ensures
        prefix_total(es, n) == prefix_total(fs, n),
    decreases n,
{
    reveal(prefix_total);
    if n > 0 {
        lemma_prefix_same_counts(es, fs, n - 1);
    }
}

proof fn lemma_prefix_push(es: Seq<MeshEntry>, e: MeshEntry, n: int)
    requires
        0 <= n <= es.len(),
    ensures
        prefix_total(es.push(e), n) == prefix_total(es, n),
        prefix_total(es.push(e), es.len() + 1int) == prefix_total(es, es.len() as int) + e.count,
{
    lemma_prefix_same_counts(es, es.push(e), n);
    lemma_prefix_same_counts(es, es.push(e), es.len() as int);
    lemma_prefix_step(es.push(e), es.len() as int);
}

/// Totals after removing entry `k` and shifting the later offsets down.
proof fn lemma_prefix_remove(es: Seq<MeshEntry>, fs: Seq<MeshEntry>, k: int, n: int)
    requires
        0 <= k < es.len(),
        fs.len() == es.len() - 1,
        forall|i: int| 0 <= i < k ==> (#[trigger] fs[i]).count == es[i].count,
        forall|i: int| k <= i < fs.len() ==> (#[trigger] fs[i]).count == es[i + 1].count,
        0 <= n <= fs.len(),
    ensures
        n <= k ==> prefix_total(fs, n) == prefix_total(es, n),
        n > k ==> prefix_total(fs, n) == prefix_total(es, n + 1) - es[k].count,
    decreases n,
{
    lemma_prefix_step(fs, 0);
    lemma_prefix_step(es, 0);
    if n > 0 {
        lemma_prefix_remove(es, fs, k, n - 1);
        lemma_prefix_step(es, n);
        lemma_prefix_step(es, n - 1);
        lemma_prefix_step(fs, n - 1);
    }
}

impl TriangleStore {
    pub closed spec fn entries_view(&self) -> Seq<MeshEntry> {
        self.entries@
    }

    pub closed spec fn positions_view(&self) -> Seq<IVec3> {
        self.positions@
    }

    /// Most triangles the store holds.
    pub closed spec fn capacity(&self) -> int {
        self.max_tri_count as int
    }

    pub open spec fn wf(&self) -> bool {
        &&& contiguous(self.entries_view(), self.positions_view().len() as int)
        &&& self.positions_view().len() <= 3 * self.capacity()
        &&& self.positions_view().len() % 3 == 0
        &&& 3 * self.capacity() <= usize::MAX
    }

    /// The stored meshes in order, each with its vertices.
    pub open spec fn view(&self) -> Seq<(u64, Seq<IVec3>)> {
        Seq::new(
            self.entries_view().len(),
            |i: int|
                (self.entries_view()[i].mesh_id, entry_vertices(self.entries_view()[i], self.positions_view())),
        )
    }

    /// An empty store that holds at most `max_tri_count` triangles.
    pub fn new(max_tri_count: usize) -> (r: TriangleStore)
        requires
            3 * max_tri_count <= usize::MAX,
        ensures
            r.wf(),
            r@ == Seq::<(u64, Seq<IVec3>)>::empty(),
            r.capacity() == max_tri_count,
    {
        let r = TriangleStore { entries: Vec::new(), positions: Vec::new(), max_tri_count };
        proof {
            lemma_prefix_step(r.entries@, 0);
        }
        assert(r@ =~= Seq::<(u64, Seq<IVec3>)>::empty());
        r
    }

    /// The table of entries.
    pub fn entries(&self) -> (r: &Vec<MeshEntry>)
        ensures
            r@ == self.entries_view(),
    {
        &self.entries
    }

    /// The flattened position buffer.
    pub fn positions(&self) -> (r: &Vec<IVec3>)
        ensures
            r@ == self.positions_view(),
    {
        &self.positions
    }

    /// Triangles held.
    pub fn triangle_count(&self) -> (r: usize)
        requires
            self.wf(),
        ensures
            r == self.positions_view().len() / 3,
    {
        self.positions.len() / 3
    }

    /// The position of `id`'s entry in the table.
    pub fn find(&self, id: u64) -> (r: Option<usize>)
        ensures
            r matches Some(i) ==> i < self.entries_view().len() && self.entries_view()[i as int].mesh_id == id,
            r is None ==> index_of(self.entries_view(), id) is None,
    {
        let mut i: usize = 0;
        while i < self.entries.len()
            invariant
                i <= self.entries@.len(),
                forall|j: int| 0 <= j < i ==> (#[trigger] self.entries@[j]).mesh_id != id,
            decreases self.entries@.len() - i,
        {
            if self.entries[i].mesh_id == id {
                return Some(i);
            }
            i = i + 1;
        }
        None
    }

    /// Where `id`'s vertices lie in the buffer: `(offset, count)`.
    pub fn mesh_range(&self, id: u64) -> (r: Option<(usize, usize)>)
        requires
            self.wf(),
        ensures
            r matches Some((o, c)) ==> exists|i: int|
                0 <= i < self.entries_view().len() && #[trigger] self.entries_view()[i] == (MeshEntry {
                    mesh_id: id,
                    offset: o,
                    count: c,
                }),
            r is None ==> index_of(self.entries_view(), id) is None,
    {
        match self.find(id) {
            Some(i) => {
                let e = self.entries[i];
                assert(self.entries_view()[i as int] == e);
                Some((e.offset, e.count))
            },
            None => None,
        }
    }
}

proof fn lemma_index_of_unique(es: Seq<MeshEntry>, i: int)
    requires
        0 <= i < es.len(),
        forall|a: int, b: int| 0 <= a < b < es.len() ==> es[a].mesh_id != es[b].mesh_id,
    ensures
        index_of(es, es[i].mesh_id) == Some(i),
{
    let id = es[i].mesh_id;
    assert(exists|j: int| 0 <= j < es.len() && (#[trigger] es[j]).mesh_id == id);
    let j = choose|j: int| 0 <= j < es.len() && (#[trigger] es[j]).mesh_id == id;
    if j < i {
        assert(es[j].mesh_id != es[i].mesh_id);
    } else if i < j {
        assert(es[i].mesh_id != es[j].mesh_id);
    }
}

/// In a contiguous table, entry `i` ends within the buffer, and every entry
/// after it starts at or past its end.
proof fn lemma_entry_bounds(es: Seq<MeshEntry>, len: int, i: int, j: int)
    requires
        contiguous(es, len),
        0 <= i < es.len(),
        i < j <= es.len(),
    ensures
        es[i].offset + es[i].count <= len,
        j < es.len() ==> es[i].offset + es[i].count <= es[j].offset,
{
    lemma_prefix_mono(es, i, j);
    lemma_prefix_mono(es, j, es.len() as int);
    lemma_prefix_mono(es, i, es.len() as int);
}

impl TriangleStore {
    /// Adds a mesh. An id already present leaves the store unchanged and
    /// returns `false`. Otherwise the mesh's whole triangles are appended, as
    /// many as the store's capacity leaves room for (the rest are dropped).
    pub fn add_mesh(&mut self, id: u64, verts: &Vec<IVec3>) -> (added: bool)
        requires
            old(self).wf(),
        ensures
            final(self).wf(),
            final(self).capacity() == old(self).capacity(),
            added == (index_of(old(self).entries_view(), id) is None),
            added ==> final(self)@ == old(self)@.push(
                (id, stored_part(verts@, old(self).positions_view().len() as int, old(self).capacity())),
            ),
            !added ==> final(self)@ == old(self)@,
    {
        if self.find(id).is_some() {
            return false;
        }
        let ghost es0 = self.entries@;
        let ghost ps0 = self.positions@;
        let held = self.positions.len();
        let room = self.max_tri_count - held / 3;
        let tris = if verts.len() / 3 <= room { verts.len() / 3 } else { room };
        let n = 3 * tris;
        let mut j: usize = 0;
        while j < n
            invariant
                j <= n,
                n <= verts@.len(),
                held == ps0.len(),
                self.positions@ =~= ps0 + verts@.take(j as int),
                self.entries@ == es0,
                self.max_tri_count == old(self).max_tri_count,
                held + n <= 3 * self.max_tri_count,
                3 * self.max_tri_count <= usize::MAX,
            decreases n - j,
        {
            self.positions.push(verts[j]);
            assert(verts@.take(j as int + 1) =~= verts@.take(j as int).push(verts@[j as int]));
            j = j + 1;
        }
        let e = MeshEntry { mesh_id: id, offset: held, count: n };
        self.entries.push(e);
        proof {
            assert(n as int == 3 * tris);
            assert(verts@.take(n as int) == stored_part(verts@, held as int, self.max_tri_count as int));
            assert forall|i: int| 0 <= i < es0.len() implies #[trigger] self.entries@[i].offset == prefix_total(
                self.entries@,
                i,
            ) by {
                lemma_prefix_push(es0, e, i);
            }
            lemma_prefix_push(es0, e, es0.len() as int);
            lemma_prefix_push(es0, e, es0.len() as int);
            assert forall|a: int, b: int|
                0 <= a < b < self.entries@.len() implies self.entries@[a].mesh_id != self.entries@[b].mesh_id by {
                if b == es0.len() {
                    assert(es0[a].mesh_id != id);
                }
            }
            assert forall|i: int| 0 <= i < es0.len() implies #[trigger] entry_vertices(
                es0[i],
                self.positions@,
            ) == entry_vertices(es0[i], ps0) by {
                lemma_entry_bounds(es0, ps0.len() as int, i, es0.len() as int);
                assert(entry_vertices(es0[i], self.positions@) =~= entry_vertices(es0[i], ps0));
            }
            assert(entry_vertices(e, self.positions@) =~= verts@.take(n as int));
            assert(self@ =~= old(self)@.push((id, verts@.take(n as int))));
        }
        true
    }
}

/// `v` without the elements `start <= i < end`.
fn without_range(v: &Vec<IVec3>, start: usize, end: usize) -> (r: Vec<IVec3>)
    requires
        start <= end <= v@.len(),
    ensures
        r@ == v@.take(start as int) + v@.subrange(end as int, v@.len() as int),
{
    let mut r: Vec<IVec3> = Vec::new();
    let mut p: usize = 0;
    while p < start
        invariant
            p <= start <= end <= v@.len(),
            r@ =~= v@.take(p as int),
        decreases start - p,
    {
        r.push(v[p]);
        assert(v@.take(p as int + 1) =~= v@.take(p as int).push(v@[p as int]));
        p = p + 1;
    }
    let mut q: usize = end;
    while q < v.len()
        invariant
            start <= end <= q <= v@.len(),
            r@ =~= v@.take(start as int) + v@.subrange(end as int, q as int),
        decreases v@.len() - q,
    {
        r.push(v[q]);
        assert(v@.subrange(end as int, q as int + 1) =~= v@.subrange(end as int, q as int).push(v@[q as int]));
        q = q + 1;
    }
    r
}

/// The table after removing entry `k` holding `count` vertices.
pub open spec fn removed_entries(es: Seq<MeshEntry>, k: int, count: int) -> Seq<MeshEntry> {
    Seq::new(
        (es.len() - 1) as nat,
        |i: int|
            if i < k {
                es[i]
            } else {
                MeshEntry { offset: (es[i + 1].offset - count) as usize, ..es[i + 1] }
            },
    )
}

fn without_entry(es: &Vec<MeshEntry>, len: Ghost<int>, k: usize) -> (r: Vec<MeshEntry>)
    requires
        contiguous(es@, len@),
        k < es@.len(),
    ensures
        r@ == removed_entries(es@, k as int, es@[k as int].count as int),
{
    let count = es[k].count;
    let mut r: Vec<MeshEntry> = Vec::new();
    let mut j: usize = 0;
    while j < es.len()
        invariant
            contiguous(es@, len@),
            k < es@.len(),
            count == es@[k as int].count,
            j <= es@.len(),
            r@.len() == if j <= k { j as int } else { j - 1 },
            forall|i: int| 0 <= i < r@.len() ==> #[trigger] r@[i] == removed_entries(es@, k as int, count as int)[i],
        decreases es@.len() - j,
    {
        let e = es[j];
        if j < k {
            r.push(e);
        } else if j > k {
            proof {
                lemma_entry_bounds(es@, len@, k as int, j as int);
            }
            r.push(MeshEntry { offset: e.offset - count, ..e });
        }
        j = j + 1;
    }
    assert(r@ =~= removed_entries(es@, k as int, count as int));
    r
}

proof fn lemma_remove_offsets(es: Seq<MeshEntry>, len: int, k: int)
    requires
        contiguous(es, len),
        0 <= k < es.len(),
    ensures
        forall|i: int|
            0 <= i < es.len() - 1 ==> (#[trigger] removed_entries(es, k, es[k].count as int)[i]).offset
                == prefix_total(removed_entries(es, k, es[k].count as int), i),
        len - es[k].count == prefix_total(removed_entries(es, k, es[k].count as int), es.len() - 1),
{
    let c = es[k].count as int;
    let fs = removed_entries(es, k, c);
    assert forall|n: int| 0 <= n <= fs.len() implies (n <= k ==> prefix_total(fs, n) == prefix_total(es, n)) && (
    n > k ==> prefix_total(fs, n) == prefix_total(es, n + 1) - c) by {
        lemma_prefix_remove(es, fs, k, n);
    }
    assert forall|i: int| 0 <= i < fs.len() implies (#[trigger] fs[i]).offset == prefix_total(fs, i) by {
        lemma_prefix_remove(es, fs, k, i);
        if i >= k {
            lemma_entry_bounds(es, len, k, i + 1);
        }
        if i > k {
            lemma_prefix_step(es, i);
            assert(prefix_total(es, i) == es[i].offset);
            assert(prefix_total(es, i + 1) == es[i + 1].offset);
        } else if i == k {
            lemma_prefix_step(es, k);
            assert(es[k + 1].offset == prefix_total(es, k + 1));
        }
    }
    if fs.len() <= k {
        lemma_prefix_step(es, k);
    }
}

proof fn lemma_remove_ids(es: Seq<MeshEntry>, len: int, k: int)
    requires
        contiguous(es, len),
        0 <= k < es.len(),
    ensures
        forall|a: int, b: int|
            0 <= a < b < es.len() - 1 ==> removed_entries(es, k, es[k].count as int)[a].mesh_id
                != removed_entries(es, k, es[k].count as int)[b].mesh_id,
        forall|i: int|
            0 <= i < es.len() - 1 ==> (#[trigger] removed_entries(es, k, es[k].count as int)[i]).count % 3 == 0,
{
    let fs = removed_entries(es, k, es[k].count as int);
    assert forall|a: int, b: int| 0 <= a < b < fs.len() implies fs[a].mesh_id != fs[b].mesh_id by {
        let a0 = if a < k { a } else { a + 1 };
        let b0 = if b < k { b } else { b + 1 };
        assert(es[a0].mesh_id != es[b0].mesh_id);
    }
    assert forall|i: int| 0 <= i < fs.len() implies (#[trigger] fs[i]).count % 3 == 0 by {
        if i >= k {
            assert(es[i + 1].count % 3 == 0);
        }
    }
}

proof fn lemma_remove_vertices(es: Seq<MeshEntry>, ps: Seq<IVec3>, k: int)
    requires
        contiguous(es, ps.len() as int),
        0 <= k < es.len(),
    ensures
        forall|i: int|
            0 <= i < es.len() - 1 ==> #[trigger] entry_vertices(
                removed_entries(es, k, es[k].count as int)[i],
                ps.take(es[k].offset as int) + ps.subrange(es[k].offset + es[k].count, ps.len() as int),
            ) == entry_vertices(es[if i < k { i } else { i + 1 }], ps),
{
    let gone = es[k];
    let fs = removed_entries(es, k, gone.count as int);
    let np = ps.take(gone.offset as int) + ps.subrange(gone.offset + gone.count, ps.len() as int);
    lemma_entry_bounds(es, ps.len() as int, k, es.len() as int);
    assert forall|i: int| 0 <= i < fs.len() implies #[trigger] entry_vertices(fs[i], np) == entry_vertices(
        es[if i < k { i } else { i + 1 }],
        ps,
    ) by {
        if i < k {
            lemma_entry_bounds(es, ps.len() as int, i, k);
            assert(entry_vertices(fs[i], np) =~= entry_vertices(es[i], ps));
        } else {
            lemma_entry_bounds(es, ps.len() as int, k, i + 1);
            lemma_entry_bounds(es, ps.len() as int, i + 1, es.len() as int);
            assert(entry_vertices(fs[i], np) =~= entry_vertices(es[i + 1], ps));
        }
    }
}

impl TriangleStore {
    /// Removes a mesh and compacts the buffer: later meshes move down to
    /// close the gap, so offsets stay contiguous. Returns whether `id` was held.
    pub fn remove_mesh(&mut self, id: u64) -> (removed: bool)
        requires
            old(self).wf(),
        ensures
            final(self).wf(),
            final(self).capacity() == old(self).capacity(),
            removed == (index_of(old(self).entries_view(), id) is Some),
            removed ==> final(self)@ == old(self)@.remove(index_of(old(self).entries_view(), id).unwrap()),
            !removed ==> final(self)@ == old(self)@,
    {
        let k = match self.find(id) {
            Some(k) => k,
            None => {
                return false;
            },
        };
        let ghost es = self.entries@;
        let ghost ps = self.positions@;
        proof {
            lemma_index_of_unique(es, k as int);
            lemma_entry_bounds(es, ps.len() as int, k as int, es.len() as int);
            lemma_remove_offsets(es, ps.len() as int, k as int);
            lemma_remove_ids(es, ps.len() as int, k as int);
            lemma_remove_vertices(es, ps, k as int);
            assert(es[k as int].count % 3 == 0);
        }
        let gone = self.entries[k];
        let entries = without_entry(&self.entries, Ghost(ps.len() as int), k);
        let positions = without_range(&self.positions, gone.offset, gone.offset + gone.count);
        self.entries = entries;
        self.positions = positions;
        proof {
            let target = old(self)@.remove(k as int);
            assert forall|i: int| 0 <= i < self.entries@.len() implies #[trigger] self@[i] == target[i] by {
                assert(entry_vertices(self.entries@[i], self.positions@) == entry_vertices(
                    es[if i < k { i } else { i + 1 }],
                    ps,
                ));
            }
            assert(self@ =~= target);
        }
        true
    }
}

impl TriangleStore {
    /// Rewrites a held mesh's vertices in place; only a mesh of unchanged
    /// vertex count can be rewritten. Returns whether it was.
    pub fn update_mesh(&mut self, id: u64, verts: &Vec<IVec3>) -> (updated: bool)
        requires
            old(self).wf(),
        ensures
            final(self).wf(),
            final(self).capacity() == old(self).capacity(),
            final(self).entries_view() == old(self).entries_view(),
            updated == (index_of(old(self).entries_view(), id) matches Some(i) && verts@.len()
                == old(self).entries_view()[i].count),
            updated ==> final(self)@ == old(self)@.update(
                index_of(old(self).entries_view(), id).unwrap(),
                (id, verts@),
            ),
            !updated ==> final(self)@ == old(self)@,
    {
        let k = match self.find(id) {
            Some(k) => k,
            None => {
                return false;
            },
        };
        let ghost es = self.entries@;
        let ghost ps = self.positions@;
        proof {
            lemma_index_of_unique(es, k as int);
            lemma_entry_bounds(es, ps.len() as int, k as int, es.len() as int);
        }
        let e = self.entries[k];
        if verts.len() != e.count {
            return false;
        }
        let mut j: usize = 0;
        while j < e.count
            invariant
                0 <= k < es.len(),
                e == es[k as int],
                e.offset + e.count <= ps.len(),
                verts@.len() == e.count,
                j <= e.count,
                self.entries@ == es,
                self.max_tri_count == old(self).max_tri_count,
                self.positions@.len() == ps.len(),
                forall|p: int|
                    0 <= p < ps.len() ==> #[trigger] self.positions@[p] == if e.offset <= p < e.offset + j {
                        verts@[p - e.offset]
                    } else {
                        ps[p]
                    },
            decreases e.count - j,
        {
            assert(e.offset + j < self.positions@.len());
            let _len = self.positions.len();
            self.positions.set(e.offset + j, verts[j]);
            j = j + 1;
        }
        proof {
            let target = old(self)@.update(k as int, (id, verts@));
            assert forall|i: int| 0 <= i < es.len() implies #[trigger] self@[i] == target[i] by {
                if i < k {
                    lemma_entry_bounds(es, ps.len() as int, i, k as int);
                    assert(entry_vertices(es[i], self.positions@) =~= entry_vertices(es[i], ps));
                } else if i > k {
                    lemma_entry_bounds(es, ps.len() as int, k as int, i);
                    lemma_entry_bounds(es, ps.len() as int, i, es.len() as int);
                    assert(entry_vertices(es[i], self.positions@) =~= entry_vertices(es[i], ps));
                } else {
                    assert(entry_vertices(es[i], self.positions@) =~= verts@);
                }
            }
            assert(self@ =~= target);
        }
        true
    }
}

/// Number of whole triangles' worth of vertices among `n`.
pub open spec fn whole_triangles(n: int) -> int {
    3 * (n / 3)
}

/// A mesh's triangle vertices, three per triangle: the positions themselves
/// for a triangle list, or the positions the indices pick for an indexed one.
/// A trailing partial triangle is dropped; an index past the positions makes
/// the mesh unusable.
pub open spec fn expanded(positions: Seq<IVec3>, indices: Option<Seq<u32>>) -> Option<Seq<IVec3>> {
    match indices {
        None => Some(positions.take(whole_triangles(positions.len() as int))),
        Some(ix) => {
            let n = whole_triangles(ix.len() as int);
            if forall|j: int| 0 <= j < n ==> (#[trigger] ix[j]) < positions.len() {
                Some(Seq::new(n as nat, |j: int| positions[ix[j] as int]))
            } else {
                None
            }
        },
    }
}

pub open spec fn index_seq(indices: Option<Vec<u32>>) -> Option<Seq<u32>> {
    match indices {
        Some(ix) => Some(ix@),
        None => None,
    }
}

/// Expands a mesh's source geometry into triangle vertices, three per
/// triangle; `None` when an index points past the positions.
pub fn expand_triangles(positions: &Vec<IVec3>, indices: &Option<Vec<u32>>) -> (r: Option<Vec<IVec3>>)
    ensures
        r matches Some(v) ==> expanded(positions@, index_seq(*indices)) == Some(v@),
        r is None ==> expanded(positions@, index_seq(*indices)) is None,
{
    let mut r: Vec<IVec3> = Vec::new();
    match indices {
        None => {
            let n = positions.len() / 3 * 3;
            let mut j: usize = 0;
            while j < n
                invariant
                    n == whole_triangles(positions@.len() as int),
                    j <= n,
                    r@ =~= positions@.take(j as int),
                decreases n - j,
            {
                r.push(positions[j]);
                assert(positions@.take(j as int + 1) =~= positions@.take(j as int).push(positions@[j as int]));
                j = j + 1;
            }
            Some(r)
        },
        Some(ix) => {
            let n = ix.len() / 3 * 3;
            let mut j: usize = 0;
            while j < n
                invariant
                    n == whole_triangles(ix@.len() as int),
                    index_seq(*indices) == Some(ix@),
                    j <= n,
                    r@.len() == j,
                    forall|q: int| 0 <= q < j ==> (#[trigger] ix@[q]) < positions@.len(),
                    forall|q: int| 0 <= q < j ==> #[trigger] r@[q] == positions@[ix@[q] as int],
                decreases n - j,
            {
                let at = ix[j] as usize;
                if at >= positions.len() {
                    assert(!(ix@[j as int] < positions@.len()));
                    assert(!(forall|q: int| 0 <= q < n ==> (#[trigger] ix@[q]) < positions@.len()));
                    return None;
                }
                r.push(positions[at]);
                j = j + 1;
            }
            assert(r@ =~= Seq::new(n as nat, |q: int| positions@[ix@[q] as int]));
            Some(r)
        },
    }
}

} // verus!
