//! Topological analysis building blocks: uniform-step subsampling of byte
//! data, and the union-find pass of 0-dimensional persistence, which
//! decides which edges of a distance-ordered edge list merge two connected
//! components.

use vstd::prelude::*;

verus! {

/// Uniform-step subsample: data of at most `max_len` bytes is kept whole;
/// longer data keeps every `len / max_len`-th byte, `max_len` bytes in all.
pub open spec fn spec_subsample(data: Seq<u8>, max_len: nat) -> Seq<u8> {
    if data.len() <= max_len {
        data
    } else {
        let step = data.len() / max_len;
        Seq::new(max_len, |k: int| data[k * step])
    }
}

/// Subsample data to at most `max_len` bytes (uniform stepping).
pub fn subsample(data: &[u8], max_len: usize) -> (out: Vec<u8>)
    requires
        max_len > 0 || data@.len() == 0,
    ensures
        out@ == spec_subsample(data@, max_len as nat),
        out@.len() <= max_len,
{
    let n = data.len();
    if n <= max_len {
        return vstd::slice::slice_to_vec(data);
    }
    let step = n / max_len;
    assert(step >= 1) by (nonlinear_arith)
        requires
            n > max_len,
            max_len > 0,
            step == n / max_len,
    ;
    assert(max_len * step <= n) by (nonlinear_arith)
        requires
            max_len > 0,
            step == n / max_len,
    ;
    let mut out: Vec<u8> = Vec::with_capacity(max_len);
    let mut k: usize = 0;
    while k < max_len
        invariant
            n == data@.len(),
            step == n / max_len,
            step >= 1,
            max_len * step <= n,
            k <= max_len,
            out@.len() == k,
            forall|x: int| 0 <= x < k ==> out@[x] == data@[x * step],
        decreases max_len - k,
    {
        assert(k * step < n) by (nonlinear_arith)
            requires
                k < max_len,
                max_len * step <= n,
                step >= 1,
        ;
        out.push(data[k * step]);
        k = k + 1;
    }
    assert(out@ =~= spec_subsample(data@, max_len as nat));
    out
}

// ---------------------------------------------------------------------------
// Connected components (H0 persistence)
// ---------------------------------------------------------------------------

/// Component labels after the first `k` edges: every vertex starts alone
/// (labelled by itself); an edge `(i, j)` joining two components gives the
/// whole component of `j` the label of `i`'s.
pub open spec fn comp_labels(n: nat, edges: Seq<(usize, usize)>, k: nat) -> Seq<int>
    decreases k,
{
    if k == 0 {
        Seq::new(n, |v: int| v)
    } else {
        let prev = comp_labels(n, edges, (k - 1) as nat);
        let li = prev[edges[k - 1].0 as int];
        let lj = prev[edges[k - 1].1 as int];
        if li == lj {
            prev
        } else {
            Seq::new(n, |v: int| if prev[v] == lj { li } else { prev[v] })
        }
    }
}

/// Edge `k` joins two different components of the graph of the edges
/// before it.
pub open spec fn edge_merges(n: nat, edges: Seq<(usize, usize)>, k: nat) -> bool {
    let l = comp_labels(n, edges, k);
    l[edges[k as int].0 as int] != l[edges[k as int].1 as int]
}

/// The positions, among the first `k` edges, of those that merge two
/// components, in order.
pub open spec fn merge_edges(n: nat, edges: Seq<(usize, usize)>, k: nat) -> Seq<usize>
    decreases k,
{
    if k == 0 {
        Seq::empty()
    } else {
        let prev = merge_edges(n, edges, (k - 1) as nat);
        if edge_merges(n, edges, (k - 1) as nat) {
            prev.push((k - 1) as usize)
        } else {
            prev
        }
    }
}

/// Every vertex has a parent in range, and ranks strictly increase from a
/// vertex to its parent.
pub open spec fn forest_wf(parent: Seq<usize>, rank: Seq<usize>) -> bool {
    &&& parent.len() == rank.len()
    &&& forall|x: int| 0 <= x < parent.len() ==> (#[trigger] parent[x]) < parent.len()
    &&& forall|x: int|
        0 <= x < parent.len() && parent[x] != x ==> rank[x] < rank[#[trigger] parent[x] as int]
}

/// The labels in use after the first `k` edges: one per component.
pub open spec fn label_set(n: nat, edges: Seq<(usize, usize)>, k: nat) -> Set<int> {
    vstd::set_lib::set_int_range(0, n as int).map(|v: int| comp_labels(n, edges, k)[v])
}

proof fn lemma_comp_labels_len(n: nat, edges: Seq<(usize, usize)>, k: nat)
    ensures
        comp_labels(n, edges, k).len() == n,
    decreases k,
{
    if k > 0 {
        lemma_comp_labels_len(n, edges, (k - 1) as nat);
    }
}

proof fn lemma_components_plus_merges(n: nat, edges: Seq<(usize, usize)>, k: nat)
    requires
        k <= edges.len(),
        forall|e: int| 0 <= e < edges.len() ==> (#[trigger] edges[e]).0 < n && edges[e].1 < n,
    ensures
        label_set(n, edges, k).finite(),
        label_set(n, edges, k).len() + merge_edges(n, edges, k).len() == n,
    decreases k,
{
    let range = vstd::set_lib::set_int_range(0, n as int);
    vstd::set_lib::lemma_int_range(0, n as int);
    if k == 0 {
        assert(label_set(n, edges, 0) =~= range);
    } else {
        let k1 = (k - 1) as nat;
        lemma_components_plus_merges(n, edges, k1);
        lemma_comp_labels_len(n, edges, k1);
        let prev = comp_labels(n, edges, k1);
        let i = edges[k1 as int].0 as int;
        let j = edges[k1 as int].1 as int;
        if edge_merges(n, edges, k1) {
            let li = prev[i];
            let lj = prev[j];
            let before = label_set(n, edges, k1);
            let after = label_set(n, edges, k);
            assert(before.contains(lj)) by {
                assert(range.contains(j));
            }
            assert forall|l: int| after.contains(l) <==> #[trigger] before.remove(lj).contains(l) by {
                if after.contains(l) {
                    let v = choose|v: int| range.contains(v) && l == comp_labels(n, edges, k)[v];
                    assert(range.contains(v));
                    if prev[v] == lj {
                        assert(l == li);
                        assert(range.contains(i) && li == prev[i]);
                    } else {
                        assert(l == prev[v]);
                    }
                }
                if before.remove(lj).contains(l) {
                    let v = choose|v: int| range.contains(v) && l == prev[v];
                    assert(comp_labels(n, edges, k)[v] == l);
                }
            }
            assert(after =~= before.remove(lj));
        } else {
            assert(comp_labels(n, edges, k) == prev);
        }
    }
}

/// Every merge joins two components into one, so among `n > 0` vertices
/// there are at most `n - 1` merges, whatever the edges.
pub proof fn lemma_merges_below_vertices(n: nat, edges: Seq<(usize, usize)>)
    requires
        n > 0,
        forall|e: int| 0 <= e < edges.len() ==> (#[trigger] edges[e]).0 < n && edges[e].1 < n,
    ensures
        merge_edges(n, edges, edges.len()).len() <= n - 1,
{
    let k = edges.len();
    lemma_components_plus_merges(n, edges, k);
    lemma_comp_labels_len(n, edges, k);
    let range = vstd::set_lib::set_int_range(0, n as int);
    assert(range.contains(0));
    assert(label_set(n, edges, k).contains(comp_labels(n, edges, k)[0]));
    assert(label_set(n, edges, k).len() >= 1) by {
        vstd::set_lib::lemma_set_empty_equivalency_len(label_set(n, edges, k));
    }
}

/// The root of the tree holding `x`.
pub open spec fn root(parent: Seq<usize>, rank: Seq<usize>, x: int) -> int
    decreases usize::MAX - rank[x],
    when forest_wf(parent, rank) && 0 <= x < parent.len()
{
    if parent[x] as int == x {
        x
    } else {
        root(parent, rank, parent[x] as int)
    }
}

proof fn lemma_root_facts(parent: Seq<usize>, rank: Seq<usize>, x: int)
    requires
        forest_wf(parent, rank),
        0 <= x < parent.len(),
    ensures
        0 <= root(parent, rank, x) < parent.len(),
        parent[root(parent, rank, x)] == root(parent, rank, x),
        parent[x] != x ==> rank[x] < rank[root(parent, rank, x)],
    decreases usize::MAX - rank[x],
{
    if parent[x] != x {
        lemma_root_facts(parent, rank, parent[x] as int);
    }
}

proof fn lemma_redirect_one(parent: Seq<usize>, rank: Seq<usize>, x: int, r: int, y: int)
    requires
        forest_wf(parent, rank),
        0 <= x < parent.len(),
        r == root(parent, rank, x),
        forest_wf(parent.update(x, r as usize), rank),
        0 <= y < parent.len(),
    ensures
        root(parent.update(x, r as usize), rank, y) == root(parent, rank, y),
    decreases usize::MAX - rank[y],
{
    let p2 = parent.update(x, r as usize);
    lemma_root_facts(parent, rank, x);
    assert(r as usize as int == r) by {
        assert(parent[r] as int == r);
    }
    if y == x {
        if parent[x] != x {
            assert(r != x);
            assert(p2[x] as int == r);
            assert(p2[r] == r);
            assert(root(p2, rank, r) == r);
            assert(root(p2, rank, x) == root(p2, rank, r));
        } else {
            assert(p2 =~= parent);
        }
    } else {
        assert(p2[y] == parent[y]);
        if parent[y] != y {
            lemma_redirect_one(parent, rank, x, r, parent[y] as int);
            assert(root(p2, rank, y) == root(p2, rank, parent[y] as int));
        }
    }
}

/// Pointing `x` straight at its root keeps the forest and every root.
proof fn lemma_redirect(parent: Seq<usize>, rank: Seq<usize>, x: int, r: int)
    requires
        forest_wf(parent, rank),
        0 <= x < parent.len(),
        r == root(parent, rank, x),
    ensures
        forest_wf(parent.update(x, r as usize), rank),
        forall|y: int|
            0 <= y < parent.len() ==> root(parent.update(x, r as usize), rank, y) == #[trigger] root(
                parent,
                rank,
                y,
            ),
        forall|y: int|
            0 <= y < parent.len() ==> ((#[trigger] parent.update(x, r as usize)[y]) == y <==> parent[y]
                == y),
{
    let p2 = parent.update(x, r as usize);
    lemma_root_facts(parent, rank, x);
    assert forall|v: int| 0 <= v < p2.len() && p2[v] != v implies rank[v] < rank[
        #[trigger] p2[v] as int] by {
        if v != x {
            assert(p2[v] == parent[v]);
        }
    }
    assert forall|y: int| 0 <= y < parent.len() implies root(p2, rank, y) == #[trigger] root(
        parent,
        rank,
        y,
    ) by {
        lemma_redirect_one(parent, rank, x, r, y);
    }
}

proof fn lemma_rank_bump_one(parent: Seq<usize>, rank: Seq<usize>, b: int, y: int)
    requires
        forest_wf(parent, rank),
        0 <= b < parent.len(),
        parent[b] == b,
        rank[b] < usize::MAX,
        forest_wf(parent, rank.update(b, (rank[b] + 1) as usize)),
        0 <= y < parent.len(),
    ensures
        root(parent, rank.update(b, (rank[b] + 1) as usize), y) == root(parent, rank, y),
    decreases usize::MAX - rank[y],
{
    if parent[y] != y {
        lemma_rank_bump_one(parent, rank, b, parent[y] as int);
    }
}

/// Raising the rank of a root keeps the forest and every root.
proof fn lemma_rank_bump(parent: Seq<usize>, rank: Seq<usize>, b: int)
    requires
        forest_wf(parent, rank),
        0 <= b < parent.len(),
        parent[b] == b,
        rank[b] < usize::MAX,
    ensures
        forest_wf(parent, rank.update(b, (rank[b] + 1) as usize)),
        forall|y: int|
            0 <= y < parent.len() ==> root(parent, rank.update(b, (rank[b] + 1) as usize), y)
                == #[trigger] root(parent, rank, y),
{
    let r2 = rank.update(b, (rank[b] + 1) as usize);
    assert forall|v: int| 0 <= v < parent.len() && parent[v] != v implies r2[v] < r2[
        #[trigger] parent[v] as int] by {
        assert(v != b);
    }
    assert forall|y: int| 0 <= y < parent.len() implies root(parent, r2, y) == #[trigger] root(
        parent,
        rank,
        y,
    ) by {
        lemma_rank_bump_one(parent, rank, b, y);
    }
}

proof fn lemma_link_one(parent: Seq<usize>, rank: Seq<usize>, a: int, b: int, y: int)
    requires
        forest_wf(parent, rank),
        0 <= a < parent.len(),
        0 <= b < parent.len(),
        a != b,
        parent[a] == a,
        parent[b] == b,
        forest_wf(parent.update(a, b as usize), rank),
        0 <= y < parent.len(),
    ensures
        root(parent.update(a, b as usize), rank, y) == if root(parent, rank, y) == a {
            b
        } else {
            root(parent, rank, y)
        },
    decreases usize::MAX - rank[y],
{
    let p2 = parent.update(a, b as usize);
    assert(b as usize as int == b) by {
        assert(parent[b] as int == b);
    }
    if y == a {
        assert(p2[a] as int == b);
        assert(p2[b] == b);
        assert(root(p2, rank, b) == b);
        assert(root(p2, rank, a) == root(p2, rank, b));
    } else {
        assert(p2[y] == parent[y]);
        if parent[y] != y {
            lemma_link_one(parent, rank, a, b, parent[y] as int);
            assert(root(p2, rank, y) == root(p2, rank, parent[y] as int));
        }
    }
}

/// Hanging root `a` under root `b` (of higher rank) moves `a`'s tree into
/// `b`'s and keeps every other root.
proof fn lemma_link(parent: Seq<usize>, rank: Seq<usize>, a: int, b: int)
    requires
        forest_wf(parent, rank),
        0 <= a < parent.len(),
        0 <= b < parent.len(),
        a != b,
        parent[a] == a,
        parent[b] == b,
        rank[a] < rank[b],
    ensures
        forest_wf(parent.update(a, b as usize), rank),
        forall|y: int|
            0 <= y < parent.len() ==> #[trigger] root(parent.update(a, b as usize), rank, y) == if root(
                parent,
                rank,
                y,
            ) == a {
                b
            } else {
                root(parent, rank, y)
            },
{
    let p2 = parent.update(a, b as usize);
    assert forall|v: int| 0 <= v < p2.len() && p2[v] != v implies rank[v] < rank[
        #[trigger] p2[v] as int] by {
        if v != a {
            assert(p2[v] == parent[v]);
        }
    }
    assert forall|y: int| 0 <= y < parent.len() implies #[trigger] root(p2, rank, y) == if root(
        parent,
        rank,
        y,
    ) == a {
        b
    } else {
        root(parent, rank, y)
    } by {
        lemma_link_one(parent, rank, a, b, y);
    }
}

/// The root of `x`, pointing every vertex on the way straight at it.
fn find(parent: &mut Vec<usize>, rank: &Vec<usize>, x: usize) -> (r: usize)
    requires
        forest_wf(old(parent)@, rank@),
        x < old(parent)@.len(),
    ensures
        forest_wf(final(parent)@, rank@),
        final(parent)@.len() == old(parent)@.len(),
        r == root(old(parent)@, rank@, x as int),
        forall|y: int|
            0 <= y < old(parent)@.len() ==> root(final(parent)@, rank@, y) == #[trigger] root(
                old(parent)@,
                rank@,
                y,
            ),
        forall|y: int|
            0 <= y < old(parent)@.len() ==> ((#[trigger] final(parent)@[y]) == y <==> old(parent)@[y]
                == y),
    decreases usize::MAX - rank@[x as int],
{
    let p = parent[x];
    if p != x {
        let ghost before = parent@;
        let r = find(parent, rank, p);
        proof {
            assert(root(before, rank@, x as int) == root(before, rank@, p as int));
            lemma_redirect(parent@, rank@, x as int, r as int);
        }
        parent.set(x, r);
        r
    } else {
        x
    }
}

/// The union-find pass of 0-dimensional persistence over `n` vertices:
/// the edges are taken in order (the caller sorts them by distance), and
/// the positions of those that join two different components are
/// returned. Union by rank with path compression.
pub fn component_merges(n: usize, edges: &[(usize, usize)]) -> (merges: Vec<usize>)
    requires
        forall|k: int| 0 <= k < edges@.len() ==> (#[trigger] edges@[k]).0 < n && edges@[k].1 < n,
    ensures
        merges@ == merge_edges(n as nat, edges@, edges@.len() as nat),
{
    let mut parent: Vec<usize> = Vec::with_capacity(n);
    let mut rank: Vec<usize> = Vec::with_capacity(n);
    let mut v: usize = 0;
    while v < n
        invariant
            v <= n,
            parent@.len() == v,
            rank@.len() == v,
            forall|x: int| 0 <= x < v ==> #[trigger] parent@[x] == x,
            forall|x: int| 0 <= x < v ==> #[trigger] rank@[x] == 0,
        decreases n - v,
    {
        parent.push(v);
        rank.push(0);
        v = v + 1;
    }
    let ghost nn = n as nat;
    proof {
        assert forall|x: int| 0 <= x < n implies root(parent@, rank@, x) == x by {}
    }
    let mut merges: Vec<usize> = Vec::new();
    let mut k: usize = 0;
    while k < edges.len()
        invariant
            k <= edges@.len(),
            nn == n,
            forall|e: int| 0 <= e < edges@.len() ==> (#[trigger] edges@[e]).0 < n && edges@[e].1 < n,
            forest_wf(parent@, rank@),
            parent@.len() == n,
            forall|x: int| 0 <= x < n ==> #[trigger] rank@[x] <= k,
            comp_labels(nn, edges@, k as nat).len() == n,
            forall|x: int|
                0 <= x < n ==> comp_labels(nn, edges@, k as nat)[x] == comp_labels(nn, edges@, k as nat)[
                    #[trigger] root(parent@, rank@, x)],
            forall|a: int, b: int|
                0 <= a < n && 0 <= b < n && parent@[a] == a && parent@[b] == b && a != b ==> #[trigger] comp_labels(
                    nn,
                    edges@,
                    k as nat,
                )[a] != #[trigger] comp_labels(nn, edges@, k as nat)[b],
            merges@ == merge_edges(nn, edges@, k as nat),
        decreases edges@.len() - k,
    {
        let ghost lab = comp_labels(nn, edges@, k as nat);
        let (i, j) = edges[k];
        let ghost p0 = parent@;
        let ri = find(&mut parent, &rank, i);
        let ghost p1 = parent@;
        let rj = find(&mut parent, &rank, j);
        let ghost p2 = parent@;
        proof {
            lemma_root_facts(p0, rank@, i as int);
            lemma_root_facts(p0, rank@, j as int);
            assert(rj == root(p1, rank@, j as int));
            assert(root(p1, rank@, j as int) == root(p0, rank@, j as int));
            assert forall|x: int| 0 <= x < n implies #[trigger] root(p2, rank@, x) == root(p0, rank@, x) by {
                assert(root(p2, rank@, x) == root(p1, rank@, x));
            }
            assert forall|x: int| 0 <= x < n implies (#[trigger] p2[x] == x <==> p0[x] == x) by {
                assert(p2[x] == x <==> p1[x] == x);
            }
            assert(lab[i as int] == lab[ri as int]);
            assert(lab[j as int] == lab[rj as int]);
            assert(edge_merges(nn, edges@, k as nat) == (lab[i as int] != lab[j as int]));
            if ri != rj {
                assert(p0[ri as int] == ri && p0[rj as int] == rj);
                assert(lab[ri as int] != lab[rj as int]);
            }
        }
        if ri != rj {
            let ghost li = lab[i as int];
            let ghost lj = lab[j as int];
            let ghost rank0 = rank@;
            let ghost mut killed: int = 0;
            let ghost mut survivor: int = 0;
            if rank[ri] < rank[rj] {
                proof {
                    lemma_link(parent@, rank@, ri as int, rj as int);
                    killed = ri as int;
                    survivor = rj as int;
                }
                parent.set(ri, rj);
            } else if rank[ri] > rank[rj] {
                proof {
                    lemma_link(parent@, rank@, rj as int, ri as int);
                    killed = rj as int;
                    survivor = ri as int;
                }
                parent.set(rj, ri);
            } else {
                proof {
                    lemma_rank_bump(parent@, rank@, ri as int);
                }
                let r = rank[ri];
                rank.set(ri, r + 1);
                proof {
                    lemma_link(parent@, rank@, rj as int, ri as int);
                    killed = rj as int;
                    survivor = ri as int;
                    assert forall|x: int| 0 <= x < n implies #[trigger] root(p2, rank@, x) == root(
                        p2,
                        rank0,
                        x,
                    ) by {}
                }
                parent.set(rj, ri);
            }
            proof {
                let next = comp_labels(nn, edges@, (k + 1) as nat);
                assert(next =~= Seq::new(nn, |w: int| if lab[w] == lj { li } else { lab[w] }));
                assert((killed == ri && survivor == rj) || (killed == rj && survivor == ri));
                assert forall|x: int| 0 <= x < n implies #[trigger] root(parent@, rank@, x) == (if root(
                    p2,
                    rank0,
                    x,
                ) == killed {
                    survivor
                } else {
                    root(p2, rank0, x)
                }) by {}
                assert forall|x: int| 0 <= x < n implies (#[trigger] parent@[x] == x <==> (p2[x] == x
                    && x != killed)) by {}
                // every vertex has its root's label
                assert forall|x: int| 0 <= x < n implies next[x] == next[
                    #[trigger] root(parent@, rank@, x)] by {
                    let r0 = root(p0, rank0, x);
                    lemma_root_facts(p0, rank0, x);
                    assert(root(p2, rank0, x) == r0);
                    assert(lab[x] == lab[r0]);
                    if r0 == killed {
                        assert(lab[x] == li || lab[x] == lj);
                        assert(lab[survivor] == li || lab[survivor] == lj);
                    }
                }
                // distinct roots keep distinct labels
                assert forall|a: int, b: int|
                    0 <= a < n && 0 <= b < n && parent@[a] == a && parent@[b] == b && a != b implies #[trigger] next[a]
                        != #[trigger] next[b] by {
                    assert(p0[a] == a && p0[b] == b);
                    assert(lab[a] != lab[b]);
                    if lab[a] == lj {
                        assert(a == rj as int);
                    }
                    if lab[b] == lj {
                        assert(b == rj as int);
                    }
                    if lab[a] == li {
                        assert(a == ri as int);
                    }
                    if lab[b] == li {
                        assert(b == ri as int);
                    }
                }
            }
            merges.push(k);
        }
        k = k + 1;
    }
    merges
}

} // verus!
