use vstd::prelude::*;

use crate::grid::{
    is_first_occurrence, lemma_swap_removed_contents, lemma_update_contents, lookup_index_of,
    swap_removed, SimGrid,
};

verus! {

/// Dense particle storage. A particle's handle is its position in `data`; deleting a particle
/// moves the last particle into the freed handle. `lookup_index[h]` caches the lookup index of
/// the cell holding particle `h`; `data[h]` is whatever the caller keeps per particle.
pub struct SimParticles<T> {
    pub data: Vec<T>,
    pub lookup_index: Vec<usize>,
}

impl<T> SimParticles<T> {
    pub open spec fn count(&self) -> int {
        self.lookup_index@.len() as int
    }

    pub open spec fn wf(&self) -> bool {
        self.data@.len() == self.lookup_index@.len()
    }

    /// Lookup index cached for particle `h`.
    pub open spec fn cell_of(&self, h: int) -> int {
        self.lookup_index@[h] as int
    }

    /// An empty store.
    pub fn new() -> (r: SimParticles<T>)
        ensures
            r.wf(),
            r.count() == 0,
    {
        SimParticles { data: Vec::new(), lookup_index: Vec::new() }
    }

    /// Number of particles.
    pub fn len(&self) -> (r: usize)
        ensures
            r == self.count(),
    {
        self.lookup_index.len()
    }
}

/// The spatial lookup and the particles' cached indices describe the same placement: each
/// particle sits, once, in the bucket its cached index names, and every bucket entry is a live
/// particle whose cached index names that bucket.
pub open spec fn lookup_consistent<T>(grid: &SimGrid, parts: &SimParticles<T>) -> bool {
    &&& grid.wf()
    &&& parts.wf()
    &&& forall|h: int|
        0 <= h < parts.count() ==> {
            &&& 0 <= #[trigger] parts.cell_of(h) < grid.cell_count()
            &&& grid.bucket(parts.cell_of(h)).contains(h as usize)
        }
    &&& forall|b: int, k: int|
        0 <= b < grid.cell_count() && 0 <= k < grid.bucket(b).len() ==> {
            &&& (#[trigger] grid.bucket(b)[k]) < parts.count()
            &&& parts.cell_of(grid.bucket(b)[k] as int) == b
        }
    &&& forall|b: int| 0 <= b < grid.cell_count() ==> (#[trigger] grid.bucket(b)).no_duplicates()
}

/// No particle sits in a Solid cell.
pub open spec fn no_particle_in_solid<T>(grid: &SimGrid, parts: &SimParticles<T>) -> bool {
    forall|h: int|
        0 <= h < parts.count() ==> #[trigger] grid.types()[parts.cell_of(h) / grid.cols()][
            parts.cell_of(h) % grid.cols()] != crate::grid::SimGridCellType::Solid
}

/// Bucket membership follows from the cached indices alone.
pub proof fn lemma_bucket_membership<T>(grid: &SimGrid, parts: &SimParticles<T>, b: int, h: usize)
    requires
        lookup_consistent(grid, parts),
        0 <= b < grid.cell_count(),
    ensures
        grid.bucket(b).contains(h) <==> (h < parts.count() && parts.cell_of(h as int) == b),
{
    if grid.bucket(b).contains(h) {
        let k = choose|k: int| 0 <= k < grid.bucket(b).len() && grid.bucket(b)[k] == h;
        assert(grid.bucket(b)[k] < parts.count());
    }
    if h < parts.count() && parts.cell_of(h as int) == b {
        assert(grid.bucket(parts.cell_of(h as int)).contains(h as int as usize));
    }
}

/// Inserts a particle into cell `(row, col)` and returns its handle.
pub fn add_particle<T>(grid: &mut SimGrid, parts: &mut SimParticles<T>, item: T, row: usize, col: usize) -> (r: usize)
    requires
        lookup_consistent(old(grid), old(parts)),
        old(grid).in_grid(row as int, col as int),
        old(parts).count() < usize::MAX,
    ensures
        lookup_consistent(final(grid), final(parts)),
        r == old(parts).count(),
        final(parts).data@ == old(parts).data@.push(item),
        final(parts).lookup_index@ == old(parts).lookup_index@.push(
            lookup_index_of(old(grid).cols(), row as int, col as int) as usize,
        ),
        final(grid).dimensions == old(grid).dimensions,
        final(grid).cell_size == old(grid).cell_size,
        final(grid).cell_type == old(grid).cell_type,
{
    let index = grid.get_lookup_index(row, col);
    let handle = parts.lookup_index.len();
    proof {
        assert(!grid.bucket(index as int).contains(handle)) by {
            if grid.bucket(index as int).contains(handle) {
                let k = choose|k: int|
                    0 <= k < grid.bucket(index as int).len() && grid.bucket(index as int)[k] == handle;
                assert(grid.bucket(index as int)[k] < parts.count());
            }
        }
    }
    grid.add_particle_to_lookup(handle, index);
    parts.data.push(item);
    parts.lookup_index.push(index);
    proof {
        let og = old(grid);
        let op = old(parts);
        assert forall|b: int| 0 <= b < grid.cell_count() implies (#[trigger] grid.bucket(b)).no_duplicates() by {
            assert(grid.bucket(b) == grid.buckets()[b]);
            assert(og.bucket(b) == og.buckets()[b]);
            if b == index {
                let s = og.bucket(b);
                let t = s.push(handle);
                assert forall|i: int, j: int| 0 <= i < t.len() && 0 <= j < t.len() && i != j implies t[i] != t[j] by {
                    if i == s.len() {
                        assert(s.contains(t[j]));
                    } else if j == s.len() {
                        assert(s.contains(t[i]));
                    }
                }
            }
        }
        assert forall|h: int| 0 <= h < parts.count() implies {
            &&& 0 <= #[trigger] parts.cell_of(h) < grid.cell_count()
            &&& grid.bucket(parts.cell_of(h)).contains(h as usize)
        } by {
            let b = parts.cell_of(h);
            if h == handle {
                assert(b == index);
                assert(grid.bucket(b) == grid.buckets()[b]);
                assert(grid.bucket(b).last() == handle);
            } else {
                assert(op.cell_of(h) == b);
                assert(grid.bucket(b) == grid.buckets()[b]);
                assert(og.bucket(b) == og.buckets()[b]);
                let k = choose|k: int| 0 <= k < og.bucket(b).len() && og.bucket(b)[k] == h as usize;
                assert(grid.bucket(b)[k] == h as usize);
            }
        }
        assert forall|b: int, k: int| 0 <= b < grid.cell_count() && 0 <= k < grid.bucket(b).len() implies {
            &&& (#[trigger] grid.bucket(b)[k]) < parts.count()
            &&& parts.cell_of(grid.bucket(b)[k] as int) == b
        } by {
            assert(grid.bucket(b) == grid.buckets()[b]);
            assert(og.bucket(b) == og.buckets()[b]);
            if b == index && k == og.bucket(b).len() {
            } else {
                assert(grid.bucket(b)[k] == og.bucket(b)[k]);
                assert(og.bucket(b)[k] < op.count());
            }
        }
    }
    handle
}

/// Consistency stated through bucket membership.
pub proof fn lemma_consistent_from_membership<T>(grid: &SimGrid, parts: &SimParticles<T>)
    requires
        grid.wf(),
        parts.wf(),
        forall|h: int| 0 <= h < parts.count() ==> 0 <= #[trigger] parts.cell_of(h) < grid.cell_count(),
        forall|b: int| 0 <= b < grid.cell_count() ==> (#[trigger] grid.bucket(b)).no_duplicates(),
        forall|b: int, x: usize|
            0 <= b < grid.cell_count() ==> (#[trigger] grid.bucket(b).contains(x) <==> (x
                < parts.count() && parts.cell_of(x as int) == b)),
    ensures
        lookup_consistent(grid, parts),
{
    assert(parts.lookup_index.len() as int == parts.count());
    assert forall|h: int| 0 <= h < parts.count() implies grid.bucket(parts.cell_of(h)).contains(
        h as usize,
    ) by {
        assert(grid.bucket(parts.cell_of(h)).contains(h as usize) <==> ((h as usize) < parts.count()
            && parts.cell_of(h as usize as int) == parts.cell_of(h)));
    }
    assert forall|b: int, k: int| 0 <= b < grid.cell_count() && 0 <= k < grid.bucket(b).len() implies {
        &&& (#[trigger] grid.bucket(b)[k]) < parts.count()
        &&& parts.cell_of(grid.bucket(b)[k] as int) == b
    } by {
        assert(grid.bucket(b).contains(grid.bucket(b)[k]));
    }
}

/// Membership of every bucket, from consistency.
pub proof fn lemma_membership_from_consistent<T>(grid: &SimGrid, parts: &SimParticles<T>)
    requires
        lookup_consistent(grid, parts),
    ensures
        forall|b: int, x: usize|
            0 <= b < grid.cell_count() ==> (#[trigger] grid.bucket(b).contains(x) <==> (x
                < parts.count() && parts.cell_of(x as int) == b)),
{
    assert forall|b: int, x: usize| 0 <= b < grid.cell_count() implies (#[trigger] grid.bucket(
        b,
    ).contains(x) <==> (x < parts.count() && parts.cell_of(x as int) == b)) by {
        lemma_bucket_membership(grid, parts, b, x);
    }
}

/// Deletes particle `h`: the last particle takes over handle `h`, in the store and in the
/// spatial lookup.
pub fn delete_particle<T>(grid: &mut SimGrid, parts: &mut SimParticles<T>, h: usize)
    requires
        lookup_consistent(old(grid), old(parts)),
        h < old(parts).count(),
    ensures
        lookup_consistent(final(grid), final(parts)),
        final(parts).data@ == swap_removed(old(parts).data@, h as int),
        final(parts).lookup_index@ == swap_removed(old(parts).lookup_index@, h as int),
        final(grid).dimensions == old(grid).dimensions,
        final(grid).cell_size == old(grid).cell_size,
        final(grid).cell_type == old(grid).cell_type,
{
    proof {
        lemma_membership_from_consistent(&*grid, &*parts);
    }
    let ghost g0 = *grid;
    let ghost lk = parts.lookup_index@;
    let n = parts.lookup_index.len();
    let last = n - 1;
    let b = parts.lookup_index[h];
    proof {
        assert(parts.cell_of(h as int) == b as int);
        assert(0 <= b < g0.cell_count());
        assert(g0.bucket(b as int).contains(h));
        assert(g0.bucket(b as int).no_duplicates());
    }
    grid.remove_particle_from_lookup(h, b);
    let ghost g1 = *grid;
    proof {
        let k = choose|k: int|
            #![trigger g0.bucket(b as int)[k]]
            is_first_occurrence(g0.bucket(b as int), k, h) && g1.buckets() == g0.buckets().update(
                b as int,
                swap_removed(g0.bucket(b as int), k),
            );
        lemma_swap_removed_contents(g0.bucket(b as int), k);
        assert forall|c: int| 0 <= c < g1.cell_count() implies (#[trigger] g1.bucket(c)).no_duplicates() by {
            assert(g1.bucket(c) == g1.buckets()[c]);
            assert(g0.bucket(c) == g0.buckets()[c]);
        }
        assert forall|c: int, x: usize| 0 <= c < g1.cell_count() implies (#[trigger] g1.bucket(
            c,
        ).contains(x) <==> (x < n && lk[x as int] == c && x != h)) by {
            assert(g1.bucket(c) == g1.buckets()[c]);
            assert(g0.bucket(c) == g0.buckets()[c]);
            assert(g0.bucket(c).contains(x) <==> (x < n && lk[x as int] == c));
        }
    }
    if h != last {
        let b2 = parts.lookup_index[last];
        proof {
            assert(parts.cell_of(last as int) == b2 as int);
            assert(0 <= b2 < g0.cell_count());
            assert(g1.bucket(b2 as int).contains(last));
        }
        grid.rename_in_lookup(last, h, b2);
        proof {
            let g2 = *grid;
            let k2 = choose|k: int|
                #![trigger g1.bucket(b2 as int)[k]]
                is_first_occurrence(g1.bucket(b2 as int), k, last) && g2.buckets() == g1.buckets().update(
                    b2 as int,
                    g1.bucket(b2 as int).update(k, h),
                );
            assert(!g1.bucket(b2 as int).contains(h));
            assert(g1.bucket(b2 as int).no_duplicates());
            lemma_update_contents(g1.bucket(b2 as int), k2, h);
            assert forall|c: int| 0 <= c < g2.cell_count() implies (#[trigger] g2.bucket(c)).no_duplicates() by {
                assert(g2.bucket(c) == g2.buckets()[c]);
                assert(g1.bucket(c) == g1.buckets()[c]);
                assert(g1.bucket(c).no_duplicates());
            }
            assert forall|c: int, x: usize| 0 <= c < g2.cell_count() implies (#[trigger] g2.bucket(
                c,
            ).contains(x) <==> (x < n - 1 && swap_removed(lk, h as int)[x as int] == c)) by {
                assert(g2.bucket(c) == g2.buckets()[c]);
                assert(g1.bucket(c) == g1.buckets()[c]);
                assert(g1.bucket(c).contains(x) <==> (x < n && lk[x as int] == c && x != h));
            }
        }
    } else {
        proof {
            assert forall|c: int, x: usize| 0 <= c < g1.cell_count() implies (#[trigger] g1.bucket(
                c,
            ).contains(x) <==> (x < n - 1 && swap_removed(lk, h as int)[x as int] == c)) by {
                assert(g1.bucket(c).contains(x) <==> (x < n && lk[x as int] == c && x != h));
            }
        }
    }
    parts.lookup_index.swap_remove(h);
    parts.data.swap_remove(h);
    proof {
        assert(parts.lookup_index@ == swap_removed(lk, h as int));
        assert forall|i: int| 0 <= i < parts.count() implies 0 <= #[trigger] parts.cell_of(i)
            < grid.cell_count() by {
            assert(grid.cell_count() == g0.cell_count());
            if i == h {
                assert(parts.cell_of(i) == old(parts).cell_of(last as int));
            } else {
                assert(parts.cell_of(i) == old(parts).cell_of(i));
            }
        }
        assert forall|c: int, x: usize| 0 <= c < grid.cell_count() implies (#[trigger] grid.bucket(
            c,
        ).contains(x) <==> (x < parts.count() && parts.cell_of(x as int) == c)) by {}
        lemma_consistent_from_membership(&*grid, &*parts);
    }
}

/// Moves particle `h` to the bucket of cell `(row, col)` if it is not already there.
pub fn update_particle_lookup<T>(grid: &mut SimGrid, parts: &mut SimParticles<T>, h: usize, row: usize, col: usize)
    requires
        lookup_consistent(old(grid), old(parts)),
        h < old(parts).count(),
        old(grid).in_grid(row as int, col as int),
    ensures
        lookup_consistent(final(grid), final(parts)),
        final(parts).data@ == old(parts).data@,
        final(parts).lookup_index@ == old(parts).lookup_index@.update(
            h as int,
            lookup_index_of(old(grid).cols(), row as int, col as int) as usize,
        ),
        final(grid).dimensions == old(grid).dimensions,
        final(grid).cell_size == old(grid).cell_size,
        final(grid).cell_type == old(grid).cell_type,
{
    proof {
        lemma_membership_from_consistent(&*grid, &*parts);
    }
    let index = grid.get_lookup_index(row, col);
    let current = parts.lookup_index[h];
    if index == current {
        proof {
            assert(parts.lookup_index@ =~= parts.lookup_index@.update(h as int, index));
        }
        return ;
    }
    let ghost g0 = *grid;
    let ghost lk = parts.lookup_index@;
    let ghost n = parts.count();
    proof {
        assert(parts.cell_of(h as int) == current as int);
        assert(g0.bucket(current as int).contains(h));
        assert(g0.bucket(current as int).no_duplicates());
    }
    grid.remove_particle_from_lookup(h, current);
    let ghost g1 = *grid;
    proof {
        let k = choose|k: int|
            #![trigger g0.bucket(current as int)[k]]
            is_first_occurrence(g0.bucket(current as int), k, h) && g1.buckets()
                == g0.buckets().update(current as int, swap_removed(g0.bucket(current as int), k));
        lemma_swap_removed_contents(g0.bucket(current as int), k);
        assert forall|c: int| 0 <= c < g1.cell_count() implies (#[trigger] g1.bucket(c)).no_duplicates() by {
            assert(g1.bucket(c) == g1.buckets()[c]);
            assert(g0.bucket(c) == g0.buckets()[c]);
        }
        assert forall|c: int, x: usize| 0 <= c < g1.cell_count() implies (#[trigger] g1.bucket(
            c,
        ).contains(x) <==> (x < n && lk[x as int] == c && x != h)) by {
            assert(g1.bucket(c) == g1.buckets()[c]);
            assert(g0.bucket(c) == g0.buckets()[c]);
            assert(g0.bucket(c).contains(x) <==> (x < n && lk[x as int] == c));
        }
        assert(!g1.bucket(index as int).contains(h));
    }
    grid.add_particle_to_lookup(h, index);
    parts.lookup_index.set(h, index);
    proof {
        let g2 = *grid;
        assert forall|c: int| 0 <= c < g2.cell_count() implies (#[trigger] g2.bucket(c)).no_duplicates() by {
            assert(g2.bucket(c) == g2.buckets()[c]);
            assert(g1.bucket(c) == g1.buckets()[c]);
            assert(g1.bucket(c).no_duplicates());
            if c == index {
                let s0 = g1.bucket(c);
                let t = s0.push(h);
                assert forall|i: int, j: int| 0 <= i < t.len() && 0 <= j < t.len() && i != j implies t[i] != t[j] by {
                    if i == s0.len() {
                        assert(s0.contains(t[j]));
                    } else if j == s0.len() {
                        assert(s0.contains(t[i]));
                    }
                }
            }
        }
        assert forall|c: int, x: usize| 0 <= c < g2.cell_count() implies (#[trigger] g2.bucket(
            c,
        ).contains(x) <==> (x < parts.count() && parts.cell_of(x as int) == c)) by {
            assert(g2.bucket(c) == g2.buckets()[c]);
            assert(g1.bucket(c) == g1.buckets()[c]);
            assert(g1.bucket(c).contains(x) <==> (x < n && lk[x as int] == c && x != h));
            if c == index {
                assert(g2.bucket(c) == g1.bucket(c).push(h));
                if x == h {
                    assert(g2.bucket(c)[g1.bucket(c).len() as int] == h);
                }
                if g2.bucket(c).contains(x) && x != h {
                    let k = choose|k: int| 0 <= k < g2.bucket(c).len() && g2.bucket(c)[k] == x;
                    assert(k < g1.bucket(c).len());
                    assert(g1.bucket(c)[k] == x);
                }
                if g1.bucket(c).contains(x) {
                    let k = choose|k: int| 0 <= k < g1.bucket(c).len() && g1.bucket(c)[k] == x;
                    assert(g2.bucket(c)[k] == x);
                }
            }
        }
        assert forall|i: int| 0 <= i < parts.count() implies 0 <= #[trigger] parts.cell_of(i)
            < grid.cell_count() by {
            if i != h {
                assert(parts.cell_of(i) == old(parts).cell_of(i));
            }
        }
        lemma_consistent_from_membership(&*grid, &*parts);
    }
}

/// `s` after deleting, from the highest position down to position `i`, every position `j`
/// with `m[j]`, each deletion moving the current last element into the freed position.
pub open spec fn removed_from<A>(s: Seq<A>, m: Seq<bool>, i: int) -> Seq<A>
    decreases m.len() - i,
{
    if i < 0 || i >= m.len() {
        s
    } else {
        let t = removed_from(s, m, i + 1);
        if m[i] {
            swap_removed(t, i)
        } else {
            t
        }
    }
}

/// The number of positions `j >= i` with `m[j]`.
pub open spec fn marked_count(m: Seq<bool>, i: int) -> int
    decreases m.len() - i,
{
    if i < 0 || i >= m.len() {
        0
    } else {
        marked_count(m, i + 1) + if m[i] {
            1int
        } else {
            0int
        }
    }
}

/// Deleting the marked positions keeps the positions below `i`, removes one element per mark,
/// and everything left at or above `i` came from an unmarked position at or above `i`.
pub proof fn lemma_removed_from<A>(s: Seq<A>, m: Seq<bool>, i: int)
    requires
        s.len() == m.len(),
        0 <= i <= m.len(),
    ensures
        0 <= marked_count(m, i) <= m.len() - i,
        removed_from(s, m, i).len() == s.len() - marked_count(m, i),
        forall|j: int| 0 <= j < i ==> #[trigger] removed_from(s, m, i)[j] == s[j],
        forall|j: int|
            i <= j < removed_from(s, m, i).len() ==> exists|k: int|
                i <= k < s.len() && !m[k] && #[trigger] removed_from(s, m, i)[j] == s[k],
    decreases m.len() - i,
{
    if i < m.len() {
        lemma_removed_from(s, m, i + 1);
        let t = removed_from(s, m, i + 1);
        let r = removed_from(s, m, i);
        if m[i] {
            assert(r == swap_removed(t, i));
            assert forall|j: int| i <= j < r.len() implies exists|k: int|
                i <= k < s.len() && !m[k] && #[trigger] r[j] == s[k] by {
                if j == i {
                    assert(r[j] == t[t.len() - 1]);
                    assert(t.len() - 1 >= i + 1);
                } else {
                    assert(r[j] == t[j]);
                }
            }
        } else {
            assert forall|j: int| i <= j < r.len() implies exists|k: int|
                i <= k < s.len() && !m[k] && #[trigger] r[j] == s[k] by {
                if j == i {
                    assert(r[j] == s[i]);
                } else {
                    assert(r[j] == t[j]);
                }
            }
        }
    }
}

/// Some position is marked exactly when the mark count is positive.
pub proof fn lemma_marked_count_positive(m: Seq<bool>, i: int)
    requires
        0 <= i <= m.len(),
    ensures
        marked_count(m, i) > 0 <==> exists|j: int| i <= j < m.len() && m[j],
    decreases m.len() - i,
{
    if i < m.len() {
        lemma_marked_count_positive(m, i + 1);
        lemma_removed_from(Seq::new(m.len(), |k: int| 0int), m, i + 1);
        if marked_count(m, i) > 0 && !m[i] {
            let j = choose|j: int| i + 1 <= j < m.len() && m[j];
        }
    }
}

/// A deletion pass that marks nothing leaves the sequence as it was.
pub proof fn lemma_nothing_marked_keeps_all<A>(s: Seq<A>, m: Seq<bool>, i: int)
    requires
        0 <= i <= m.len(),
        forall|j: int| i <= j < m.len() ==> !m[j],
    ensures
        removed_from(s, m, i) == s,
        marked_count(m, i) == 0,
    decreases m.len() - i,
{
    if i < m.len() {
        lemma_nothing_marked_keeps_all(s, m, i + 1);
    }
}

/// Deletes every particle `h` with `doomed[h]`, from the highest handle down, each deletion
/// moving the then-last particle into the freed handle. Returns how many were deleted.
pub fn delete_marked_particles<T>(grid: &mut SimGrid, parts: &mut SimParticles<T>, doomed: &Vec<bool>) -> (r: usize)
    requires
        lookup_consistent(old(grid), old(parts)),
        doomed@.len() == old(parts).count(),
    ensures
        lookup_consistent(final(grid), final(parts)),
        r == marked_count(doomed@, 0),
        final(parts).count() == old(parts).count() - r,
        final(parts).data@ == removed_from(old(parts).data@, doomed@, 0),
        final(parts).lookup_index@ == removed_from(old(parts).lookup_index@, doomed@, 0),
        (exists|j: int| 0 <= j < doomed@.len() && doomed@[j]) <==> r > 0,
        final(grid).dimensions == old(grid).dimensions,
        final(grid).cell_size == old(grid).cell_size,
        final(grid).cell_type == old(grid).cell_type,
{
    let n = doomed.len();
    let mut i: usize = n;
    let mut removed: usize = 0;
    proof {
        lemma_removed_from(old(parts).data@, doomed@, n as int);
        lemma_removed_from(old(parts).lookup_index@, doomed@, n as int);
    }
    while i > 0
        invariant
            lookup_consistent(grid, parts),
            n == doomed@.len(),
            n == old(parts).count(),
            old(parts).wf(),
            i <= n,
            removed == marked_count(doomed@, i as int),
            removed <= n - i,
            parts.count() == n - removed,
            parts.data@ == removed_from(old(parts).data@, doomed@, i as int),
            parts.lookup_index@ == removed_from(old(parts).lookup_index@, doomed@, i as int),
            grid.dimensions == old(grid).dimensions,
            grid.cell_size == old(grid).cell_size,
            grid.cell_type == old(grid).cell_type,
        decreases i,
    {
        i -= 1;
        proof {
            lemma_removed_from(old(parts).data@, doomed@, i as int);
            lemma_removed_from(old(parts).lookup_index@, doomed@, i as int);
        }
        if doomed[i] {
            delete_particle(grid, parts, i);
            removed += 1;
        }
    }
    proof {
        lemma_marked_count_positive(doomed@, 0);
    }
    removed
}

impl SimGrid {
    /// Deletes every particle of the cell with lookup index `lookup_index`, as
    /// `delete_marked_particles` does with those particles marked; returns how many were deleted.
    pub fn delete_all_particles_in_cell<T>(&mut self, parts: &mut SimParticles<T>, lookup_index: usize) -> (r: usize)
        requires
            lookup_consistent(old(self), old(parts)),
        ensures
            lookup_consistent(final(self), final(parts)),
            r == marked_count(cell_mask(old(parts).lookup_index@, lookup_index), 0),
            final(parts).count() == old(parts).count() - r,
            final(parts).data@ == removed_from(
                old(parts).data@,
                cell_mask(old(parts).lookup_index@, lookup_index),
                0,
            ),
            final(parts).lookup_index@ == removed_from(
                old(parts).lookup_index@,
                cell_mask(old(parts).lookup_index@, lookup_index),
                0,
            ),
            forall|h: int| 0 <= h < final(parts).count() ==> #[trigger] final(parts).lookup_index@[h] != lookup_index,
            final(self).dimensions == old(self).dimensions,
            final(self).cell_size == old(self).cell_size,
            final(self).cell_type == old(self).cell_type,
    {
        let n = parts.lookup_index.len();
        let mut doomed: Vec<bool> = Vec::new();
        let mut i: usize = 0;
        while i < n
            invariant
                n == parts.lookup_index@.len(),
                i <= n,
                doomed@ == cell_mask(parts.lookup_index@, lookup_index).subrange(0, i as int),
            decreases n - i,
        {
            doomed.push(parts.lookup_index[i] == lookup_index);
            i += 1;
            proof {
                assert(doomed@ =~= cell_mask(parts.lookup_index@, lookup_index).subrange(0, i as int));
            }
        }
        proof {
            assert(doomed@ =~= cell_mask(parts.lookup_index@, lookup_index));
        }
        let ghost lk = parts.lookup_index@;
        let r = delete_marked_particles(self, parts, &doomed);
        proof {
            lemma_removed_from(lk, doomed@, 0);
            assert forall|h: int| 0 <= h < parts.count() implies #[trigger] parts.lookup_index@[h]
                != lookup_index by {
                let k = choose|k: int| 0 <= k < lk.len() && !doomed@[k] && removed_from(lk, doomed@, 0)[h] == lk[k];
            }
        }
        r
    }
}

/// Marks the positions of `lk` equal to `index`.
pub open spec fn cell_mask(lk: Seq<usize>, index: usize) -> Seq<bool> {
    Seq::new(lk.len(), |h: int| lk[h] == index)
}

/// Deletes every particle and empties every bucket.
pub fn delete_all_particles<T>(grid: &mut SimGrid, parts: &mut SimParticles<T>)
    requires
        old(grid).wf(),
    ensures
        lookup_consistent(final(grid), final(parts)),
        final(parts).count() == 0,
        final(parts).data@.len() == 0,
        final(grid).dimensions == old(grid).dimensions,
        final(grid).cell_size == old(grid).cell_size,
        final(grid).cell_type == old(grid).cell_type,
        forall|b: int| 0 <= b < final(grid).cell_count() ==> (#[trigger] final(grid).bucket(b)).len() == 0,
{
    parts.data.clear();
    parts.lookup_index.clear();
    let n = grid.spatial_lookup.len();
    let mut b: usize = 0;
    while b < n
        invariant
            grid.wf(),
            n == grid.spatial_lookup@.len(),
            b <= n,
            grid.dimensions == old(grid).dimensions,
            grid.cell_size == old(grid).cell_size,
            grid.cell_type == old(grid).cell_type,
            forall|c: int| 0 <= c < b ==> (#[trigger] grid.bucket(c)).len() == 0,
        decreases n - b,
    {
        let ghost prev = *grid;
        grid.spatial_lookup[b].clear();
        proof {
            assert forall|c: int| 0 <= c <= b implies (#[trigger] grid.bucket(c)).len() == 0 by {
                if c < b {
                    assert(prev.bucket(c).len() == 0);
                    assert(grid.spatial_lookup@[c] == prev.spatial_lookup@[c]);
                } else {
                    assert(grid.spatial_lookup@[c]@ == Seq::<usize>::empty());
                }
            }
        }
        b += 1;
    }
    proof {
        assert forall|c: int| 0 <= c < grid.cell_count() implies (#[trigger] grid.bucket(c)).no_duplicates() by {
            assert(grid.bucket(c).len() == 0);
        }
        assert forall|c: int, x: usize| 0 <= c < grid.cell_count() implies (#[trigger] grid.bucket(
            c,
        ).contains(x) <==> (x < parts.count() && parts.cell_of(x as int) == c)) by {
            assert(grid.bucket(c).len() == 0);
        }
        lemma_consistent_from_membership(&*grid, &*parts);
    }
}

/// Consistency depends on the grid only through its shape and its spatial lookup.
pub proof fn lemma_consistent_same_lookup<T>(g0: &SimGrid, g1: &SimGrid, parts: &SimParticles<T>)
    requires
        lookup_consistent(g0, parts),
        g1.wf(),
        g1.dimensions == g0.dimensions,
        g1.spatial_lookup == g0.spatial_lookup,
    ensures
        lookup_consistent(g1, parts),
{
    assert forall|b: int| 0 <= b < g1.cell_count() implies #[trigger] g1.bucket(b) == g0.bucket(b) by {}
    lemma_membership_from_consistent(g0, parts);
    assert forall|b: int, x: usize| 0 <= b < g1.cell_count() implies (#[trigger] g1.bucket(b).contains(x)
        <==> (x < parts.count() && parts.cell_of(x as int) == b)) by {
        assert(g1.bucket(b) == g0.bucket(b));
    }
    assert forall|b: int| 0 <= b < g1.cell_count() implies (#[trigger] g1.bucket(b)).no_duplicates() by {
        assert(g1.bucket(b) == g0.bucket(b));
    }
    lemma_consistent_from_membership(g1, parts);
}

/// Labelling the cells keeps every particle out of Solid cells: it turns no cell Solid.
pub proof fn lemma_labeling_keeps_particles_out_of_solids<T>(
    before: &SimGrid,
    after: &SimGrid,
    parts: &SimParticles<T>,
)
    requires
        lookup_consistent(before, parts),
        no_particle_in_solid(before, parts),
        after.dimensions == before.dimensions,
        after.types() == crate::grid::labeled_types(before.types(), before.buckets(), before.cols()),
    ensures
        no_particle_in_solid(after, parts),
{
    assert forall|h: int| 0 <= h < parts.count() implies #[trigger] after.types()[parts.cell_of(h) / after.cols()][
        parts.cell_of(h) % after.cols()] != crate::grid::SimGridCellType::Solid by {
        let b = parts.cell_of(h);
        crate::grid::lemma_index_decomposition(before.rows(), before.cols(), b);
        let r = b / before.cols();
        let c = b % before.cols();
        assert(before.types()[r] == before.cell_type@[r]@);
        assert(before.types()[r][c] != crate::grid::SimGridCellType::Solid);
    }
}

} // verus!
